use vstd::prelude::*;
use vstd::string::*;
use crate::Config;

verus! {

// ---------------------------------------------------------------------------
// Configuration parsing: the pure half of reading the environment. The
// bootstrap code hands the raw variable values in; everything decided here
// — decimal parsing, defaults, the port bound — is verified.
// ---------------------------------------------------------------------------

/// The numeric value of a decimal digit; -1 for anything else.
pub open spec fn dec_digit_val(c: char) -> int {
    if c == '0' { 0 } else if c == '1' { 1 } else if c == '2' { 2 } else if c == '3' { 3 }
    else if c == '4' { 4 } else if c == '5' { 5 } else if c == '6' { 6 } else if c == '7' { 7 }
    else if c == '8' { 8 } else if c == '9' { 9 } else { -1 }
}

pub open spec fn is_dec_digit(c: char) -> bool {
    dec_digit_val(c) >= 0
}

pub open spec fn all_dec(s: Seq<char>) -> bool {
    forall|i: int| 0 <= i < s.len() ==> is_dec_digit(#[trigger] s[i])
}

/// The value of a sequence of decimal digits, most significant first.
pub open spec fn dec_val(s: Seq<char>) -> int
    decreases s.len(),
{
    if s.len() == 0 {
        0
    } else {
        dec_val(s.drop_last()) * 10 + dec_digit_val(s.last())
    }
}

/// What `parse_u64` accepts: one or more decimal digits whose value fits.
pub open spec fn parse_u64_spec(s: Seq<char>) -> Option<u64> {
    if s.len() > 0 && all_dec(s) && dec_val(s) <= u64::MAX {
        Some(dec_val(s) as u64)
    } else {
        None
    }
}

/// What `parse_u32` accepts.
pub open spec fn parse_u32_spec(s: Seq<char>) -> Option<u32> {
    if s.len() > 0 && all_dec(s) && dec_val(s) <= u32::MAX {
        Some(dec_val(s) as u32)
    } else {
        None
    }
}

/// What `parse_i64` accepts: an optional leading minus sign, then decimal
/// digits; the magnitude must stay within `i64::MAX` in either sign.
pub open spec fn parse_i64_spec(s: Seq<char>) -> Option<i64> {
    if s.len() > 0 && s[0] == '-' {
        let mag = s.drop_first();
        if mag.len() > 0 && all_dec(mag) && dec_val(mag) <= i64::MAX {
            Some((-dec_val(mag)) as i64)
        } else {
            None
        }
    } else if s.len() > 0 && all_dec(s) && dec_val(s) <= i64::MAX {
        Some(dec_val(s) as i64)
    } else {
        None
    }
}

/// The value of digits is nonnegative and only grows as digits append.
proof fn lemma_dec_val_prefix(s: Seq<char>, i: int)
    requires
        all_dec(s),
        0 <= i <= s.len(),
    ensures
        0 <= dec_val(s.take(i)) <= dec_val(s),
    decreases s.len() - i,
{
    if i < s.len() {
        lemma_dec_val_prefix(s, i + 1);
        assert(s.take(i + 1).drop_last() =~= s.take(i));
        assert(s.take(i + 1).last() == s[i]);
        assert(dec_val(s.take(i)) >= 0) by {
            lemma_dec_val_nonneg(s.take(i), s, i);
        }
    } else {
        assert(s.take(i) =~= s);
        lemma_dec_val_nonneg(s, s, s.len() as int);
    }
}

proof fn lemma_dec_val_nonneg(p: Seq<char>, s: Seq<char>, i: int)
    requires
        all_dec(s),
        0 <= i <= s.len(),
        p =~= s.take(i),
    ensures
        dec_val(p) >= 0,
    decreases i,
{
    if i > 0 {
        assert(p.drop_last() =~= s.take(i - 1));
        assert(p.last() == s[i - 1]);
        lemma_dec_val_nonneg(p.drop_last(), s, i - 1);
    }
}

/// Parses an unsigned decimal number of up to 64 bits. Exactly the strings
/// of one or more decimal digits whose value fits are accepted.
pub fn parse_u64(s: &str) -> (r: Option<u64>)
    ensures
        r == parse_u64_spec(s@),
{
    let n = s.unicode_len();
    if n == 0 {
        return None;
    }
    let mut acc: u64 = 0;
    let mut i: usize = 0;
    while i < n
        invariant
            0 < n == s@.len(),
            0 <= i <= n,
            all_dec(s@.take(i as int)),
            acc == dec_val(s@.take(i as int)),
        decreases n - i,
    {
        let c = s.get_char(i);
        let d: u64 = match c {
            '0' => 0, '1' => 1, '2' => 2, '3' => 3, '4' => 4,
            '5' => 5, '6' => 6, '7' => 7, '8' => 8, '9' => 9,
            _ => {
                return None;
            },
        };
        proof {
            assert(s@.take(i + 1).drop_last() =~= s@.take(i as int));
            assert(s@.take(i + 1).last() == s@[i as int]);
            assert(all_dec(s@.take(i + 1))) by {
                let p = s@.take(i + 1);
                assert(forall|j: int| 0 <= j < i ==> p[j] == #[trigger] s@.take(i as int)[j]);
            }
        }
        if acc > (u64::MAX - d) / 10 {
            proof {
                lemma_dec_val_prefix_conditional(s@, i + 1);
            }
            return None;
        }
        acc = acc * 10 + d;
        i = i + 1;
    }
    proof {
        assert(s@.take(n as int) =~= s@);
    }
    Some(acc)
}

/// If the whole string is digits, its value is at least any prefix's value.
proof fn lemma_dec_val_prefix_conditional(s: Seq<char>, i: int)
    requires
        0 <= i <= s.len(),
    ensures
        all_dec(s) ==> dec_val(s.take(i)) <= dec_val(s),
{
    if all_dec(s) {
        lemma_dec_val_prefix(s, i);
    }
}

/// The value of a digit string is nonnegative.
proof fn lemma_dec_val_whole_nonneg(s: Seq<char>)
    requires
        all_dec(s),
    ensures
        dec_val(s) >= 0,
{
    assert(s =~= s.take(s.len() as int));
    lemma_dec_val_nonneg(s, s, s.len() as int);
}

/// Parses an unsigned 32-bit decimal number.
pub fn parse_u32(s: &str) -> (r: Option<u32>)
    ensures
        r == parse_u32_spec(s@),
{
    proof {
        if s@.len() > 0 && all_dec(s@) {
            lemma_dec_val_whole_nonneg(s@);
        }
    }
    match parse_u64(s) {
        Some(v) => if v <= u32::MAX as u64 {
            Some(v as u32)
        } else {
            None
        },
        None => None,
    }
}

/// Parses a signed 64-bit decimal number: an optional minus sign, then
/// digits. The magnitude is bounded by `i64::MAX` for either sign.
pub fn parse_i64(s: &str) -> (r: Option<i64>)
    ensures
        r == parse_i64_spec(s@),
{
    let n = s.unicode_len();
    if n == 0 {
        return None;
    }
    if s.get_char(0) == '-' {
        let mag = s.substring_char(1, n);
        proof {
            assert(mag@ =~= s@.drop_first());
            if mag@.len() > 0 && all_dec(mag@) {
                lemma_dec_val_whole_nonneg(mag@);
            }
        }
        match parse_u64(mag) {
            Some(v) => if v <= i64::MAX as u64 {
                Some(-(v as i64))
            } else {
                None
            },
            None => None,
        }
    } else {
        proof {
            if s@.len() > 0 && all_dec(s@) {
                lemma_dec_val_whole_nonneg(s@);
            }
        }
        match parse_u64(s) {
            Some(v) => if v <= i64::MAX as u64 {
                Some(v as i64)
            } else {
                None
            },
            None => None,
        }
    }
}

/// Which part of the environment the configuration cannot be built from.
#[derive(Debug, Clone, Copy, PartialEq, Eq, Structural)]
pub enum ConfigError {
    InvalidMaxImageWidth,
    InvalidMaxImageHeight,
    InvalidMaxImageSize,
    InvalidMaxMemoryUsage,
    InvalidBackendPort,
    BackendPortTooLarge,
    MissingDatabaseUrl,
    InvalidImageTtl,
}

/// The value of an optional string, as character sequences.
pub open spec fn opt_view(s: Option<&str>) -> Option<Seq<char>> {
    match s {
        None => None,
        Some(t) => Some(t@),
    }
}

/// An optional `u32` variable parses when absent or when its value does.
pub open spec fn opt_u32_ok(s: Option<&str>) -> bool {
    match s {
        None => true,
        Some(t) => parse_u32_spec(t@) is Some,
    }
}

pub open spec fn opt_u32_val(s: Option<&str>) -> Option<u32> {
    match s {
        None => None,
        Some(t) => parse_u32_spec(t@),
    }
}

/// Builds the configuration from the raw environment values, with the
/// defaults of the service: port 8080, object-store root `images`. Every
/// present variable must parse; the database URL must be present; the port
/// must satisfy the `< 25565` bound.
pub fn parse_config(
    max_image_width: Option<&str>,
    max_image_height: Option<&str>,
    max_image_size: Option<&str>,
    max_memory_usage: Option<&str>,
    backend_port: Option<&str>,
    database_url: Option<&str>,
    image_path: Option<&str>,
    image_ttl_secs: Option<&str>,
) -> (r: Result<Config, ConfigError>)
    ensures
        r is Ok <==> ({
            &&& opt_u32_ok(max_image_width)
            &&& opt_u32_ok(max_image_height)
            &&& (max_image_size matches Some(t) ==> parse_u64_spec(t@) is Some
                && parse_u64_spec(t@)->0 <= usize::MAX)
            &&& opt_u32_ok(max_memory_usage)
            &&& (backend_port matches Some(t) ==> parse_u32_spec(t@) is Some
                && parse_u32_spec(t@)->0 <= u16::MAX)
            &&& Config::port_ok_spec(effective_port(backend_port))
            &&& database_url is Some
            &&& (image_ttl_secs matches Some(t) ==> parse_i64_spec(t@) is Some)
        }),
        r is Ok ==> ({
            let c = r->Ok_0;
            &&& c.max_image_width == opt_u32_val(max_image_width)
            &&& c.max_image_height == opt_u32_val(max_image_height)
            &&& (match max_image_size {
                None => c.max_image_size is None,
                Some(t) => c.max_image_size == Some(parse_u64_spec(t@)->0 as usize),
            })
            &&& c.max_memory_usage == opt_u32_val(max_memory_usage)
            &&& c.backend_port == effective_port(backend_port)
            &&& c.database_url@ == database_url->0@
            &&& (match image_path {
                None => c.image_path@ == "images"@,
                Some(t) => c.image_path@ == t@,
            })
            &&& (match image_ttl_secs {
                None => c.image_ttl is None,
                Some(t) => c.image_ttl == parse_i64_spec(t@),
            })
        }),
{
    let width = match max_image_width {
        None => None,
        Some(t) => match parse_u32(t) {
            Some(v) => Some(v),
            None => {
                return Err(ConfigError::InvalidMaxImageWidth);
            },
        },
    };
    let height = match max_image_height {
        None => None,
        Some(t) => match parse_u32(t) {
            Some(v) => Some(v),
            None => {
                return Err(ConfigError::InvalidMaxImageHeight);
            },
        },
    };
    let size: Option<usize> = match max_image_size {
        None => None,
        Some(t) => match parse_u64(t) {
            Some(v) => if v <= usize::MAX as u64 {
                Some(v as usize)
            } else {
                return Err(ConfigError::InvalidMaxImageSize);
            },
            None => {
                return Err(ConfigError::InvalidMaxImageSize);
            },
        },
    };
    let memory = match max_memory_usage {
        None => None,
        Some(t) => match parse_u32(t) {
            Some(v) => Some(v),
            None => {
                return Err(ConfigError::InvalidMaxMemoryUsage);
            },
        },
    };
    let port: u16 = match backend_port {
        None => 8080,
        Some(t) => match parse_u32(t) {
            Some(v) => if v <= u16::MAX as u32 {
                v as u16
            } else {
                return Err(ConfigError::InvalidBackendPort);
            },
            None => {
                return Err(ConfigError::InvalidBackendPort);
            },
        },
    };
    if !Config::port_ok(port) {
        return Err(ConfigError::BackendPortTooLarge);
    }
    let url = match database_url {
        None => {
            return Err(ConfigError::MissingDatabaseUrl);
        },
        Some(t) => String::from_str(t),
    };
    let path = match image_path {
        None => String::from_str("images"),
        Some(t) => String::from_str(t),
    };
    let ttl = match image_ttl_secs {
        None => None,
        Some(t) => match parse_i64(t) {
            Some(v) => Some(v),
            None => {
                return Err(ConfigError::InvalidImageTtl);
            },
        },
    };
    Ok(Config {
        max_image_width: width,
        max_image_height: height,
        max_image_size: size,
        max_memory_usage: memory,
        backend_port: port,
        database_url: url,
        image_path: path,
        image_ttl: ttl,
    })
}

/// The port a configuration ends up with: the parsed value, or 8080.
pub open spec fn effective_port(backend_port: Option<&str>) -> u16 {
    match backend_port {
        None => 8080u16,
        Some(t) => if parse_u32_spec(t@) is Some && parse_u32_spec(t@)->0 <= u16::MAX {
            parse_u32_spec(t@)->0 as u16
        } else {
            8080u16
        },
    }
}

} // verus!
