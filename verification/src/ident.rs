use vstd::prelude::*;
use vstd::string::*;
use vstd::arithmetic::div_mod::lemma_mod_breakdown;
use vstd::arithmetic::power::{pow, lemma_pow_adds, lemma_pow_strictly_increases};

verus! {

/// A server-minted 128-bit identifier. It is rendered as 32 lowercase
/// hexadecimal digits wherever it reaches a filesystem path or the wire.
#[derive(Debug, Clone, Copy, PartialEq, Eq, Hash, Structural)]
pub struct ImageId {
    pub id: u128,
}

/// The lowercase hexadecimal digit for a value below 16.
pub open spec fn hex_digit_char(d: int) -> char {
    if d == 0 { '0' } else if d == 1 { '1' } else if d == 2 { '2' } else if d == 3 { '3' }
    else if d == 4 { '4' } else if d == 5 { '5' } else if d == 6 { '6' } else if d == 7 { '7' }
    else if d == 8 { '8' } else if d == 9 { '9' } else if d == 10 { 'a' } else if d == 11 { 'b' }
    else if d == 12 { 'c' } else if d == 13 { 'd' } else if d == 14 { 'e' } else { 'f' }
}

/// The last `n` hexadecimal digits of `v`, most significant first.
pub open spec fn hex_rep(v: u128, n: nat) -> Seq<char>
    decreases n,
{
    if n == 0 {
        Seq::<char>::empty()
    } else {
        hex_rep(v / 16, (n - 1) as nat).push(hex_digit_char((v % 16) as int))
    }
}

/// The canonical rendering of an identifier: its 32 hexadecimal digits.
pub open spec fn hex32_of(v: u128) -> Seq<char> {
    hex_rep(v, 32)
}

/// The digit values of `ds`, read as characters in reverse order.
pub open spec fn rev_chars(ds: Seq<u8>) -> Seq<char> {
    Seq::new(ds.len(), |j: int| hex_digit_char(ds[ds.len() - 1 - j] as int))
}

/// The numeric value of a hexadecimal character; -1 for anything else.
/// Both lowercase and uppercase digits are accepted.
pub open spec fn hex_char_val(c: char) -> int {
    if c == '0' { 0 } else if c == '1' { 1 } else if c == '2' { 2 } else if c == '3' { 3 }
    else if c == '4' { 4 } else if c == '5' { 5 } else if c == '6' { 6 } else if c == '7' { 7 }
    else if c == '8' { 8 } else if c == '9' { 9 }
    else if c == 'a' || c == 'A' { 10 } else if c == 'b' || c == 'B' { 11 }
    else if c == 'c' || c == 'C' { 12 } else if c == 'd' || c == 'D' { 13 }
    else if c == 'e' || c == 'E' { 14 } else if c == 'f' || c == 'F' { 15 }
    else { -1 }
}

pub open spec fn is_hex_char(c: char) -> bool {
    hex_char_val(c) >= 0
}

pub open spec fn all_hex(s: Seq<char>) -> bool {
    forall|i: int| 0 <= i < s.len() ==> is_hex_char(#[trigger] s[i])
}

/// The value of a sequence of hexadecimal characters, most significant first.
pub open spec fn hex_seq_val(s: Seq<char>) -> int
    decreases s.len(),
{
    if s.len() == 0 {
        0
    } else {
        hex_seq_val(s.drop_last()) * 16 + hex_char_val(s.last())
    }
}

/// What `ImageId::from_str` accepts: exactly 32 hexadecimal digits.
pub open spec fn parse_id_spec(s: Seq<char>) -> Option<u128> {
    if s.len() == 32 && all_hex(s) {
        Some(hex_seq_val(s) as u128)
    } else {
        None
    }
}

/// Appends the hexadecimal digit `d` to `s`.
fn push_hex_digit(s: &mut String, d: u8)
    requires
        d < 16,
    ensures
        final(s)@ == old(s)@.push(hex_digit_char(d as int)),
{
    if d == 0 { proof { reveal_strlit("0"); } s.append("0"); }
    else if d == 1 { proof { reveal_strlit("1"); } s.append("1"); }
    else if d == 2 { proof { reveal_strlit("2"); } s.append("2"); }
    else if d == 3 { proof { reveal_strlit("3"); } s.append("3"); }
    else if d == 4 { proof { reveal_strlit("4"); } s.append("4"); }
    else if d == 5 { proof { reveal_strlit("5"); } s.append("5"); }
    else if d == 6 { proof { reveal_strlit("6"); } s.append("6"); }
    else if d == 7 { proof { reveal_strlit("7"); } s.append("7"); }
    else if d == 8 { proof { reveal_strlit("8"); } s.append("8"); }
    else if d == 9 { proof { reveal_strlit("9"); } s.append("9"); }
    else if d == 10 { proof { reveal_strlit("a"); } s.append("a"); }
    else if d == 11 { proof { reveal_strlit("b"); } s.append("b"); }
    else if d == 12 { proof { reveal_strlit("c"); } s.append("c"); }
    else if d == 13 { proof { reveal_strlit("d"); } s.append("d"); }
    else if d == 14 { proof { reveal_strlit("e"); } s.append("e"); }
    else { proof { reveal_strlit("f"); } s.append("f"); }
    proof {
        assert(s@ =~= old(s)@.push(hex_digit_char(d as int)));
    }
}

/// Translates one character to its hexadecimal value, if it has one.
fn hex_val_of_char(c: char) -> (r: Option<u8>)
    ensures
        r is Some <==> is_hex_char(c),
        r is Some ==> r->0 == hex_char_val(c),
{
    match c {
        '0' => Some(0), '1' => Some(1), '2' => Some(2), '3' => Some(3),
        '4' => Some(4), '5' => Some(5), '6' => Some(6), '7' => Some(7),
        '8' => Some(8), '9' => Some(9),
        'a' | 'A' => Some(10), 'b' | 'B' => Some(11), 'c' | 'C' => Some(12),
        'd' | 'D' => Some(13), 'e' | 'E' => Some(14), 'f' | 'F' => Some(15),
        _ => None,
    }
}

/// The value of `n` hexadecimal digits stays below `pow(16, n)`.
proof fn lemma_hex_seq_val_bound(s: Seq<char>)
    requires
        all_hex(s),
    ensures
        0 <= hex_seq_val(s) < pow(16, s.len()),
    decreases s.len(),
{
    if s.len() == 0 {
        assert(pow(16, 0) == 1) by { reveal_with_fuel(pow, 2); }
    } else {
        assert(all_hex(s.drop_last())) by {
            assert(forall|i: int| 0 <= i < s.len() - 1 ==> s.drop_last()[i] == s[i]);
        }
        lemma_hex_seq_val_bound(s.drop_last());
        lemma_pow_adds(16, (s.len() - 1) as nat, 1);
        assert(pow(16, 1) == 16) by { reveal_with_fuel(pow, 3); }
        assert(hex_seq_val(s.drop_last()) * 16 + 16 <= pow(16, (s.len() - 1) as nat) * 16) by (nonlinear_arith)
            requires hex_seq_val(s.drop_last()) + 1 <= pow(16, (s.len() - 1) as nat),
        ;
    }
}

/// Reading back the hexadecimal rendering of `v` recovers `v % pow(16, n)`.
proof fn lemma_hex_rep_val(v: u128, n: nat)
    ensures
        hex_rep(v, n).len() == n,
        all_hex(hex_rep(v, n)),
        hex_seq_val(hex_rep(v, n)) == (v as int) % (pow(16, n) as int),
    decreases n,
{
    if n == 0 {
        assert(pow(16, 0) == 1) by { reveal_with_fuel(pow, 2); }
    } else {
        lemma_hex_rep_val(v / 16, (n - 1) as nat);
        let s = hex_rep(v, n);
        assert(s.drop_last() =~= hex_rep(v / 16, (n - 1) as nat));
        assert(is_hex_char(hex_digit_char((v % 16) as int)));
        assert(hex_char_val(hex_digit_char((v % 16) as int)) == v % 16);
        lemma_pow_adds(16, 1, (n - 1) as nat);
        assert(pow(16, 1) == 16) by { reveal_with_fuel(pow, 3); }
        vstd::arithmetic::power::lemma_pow_positive(16, (n - 1) as nat);
        lemma_mod_breakdown(v as int, 16, pow(16, (n - 1) as nat) as int);
        assert(hex_seq_val(s) == ((v as int / 16) % (pow(16, (n - 1) as nat) as int)) * 16 + (v as int) % 16);
    }
}

/// `pow(16, 32)` is the size of the 128-bit identifier space.
proof fn lemma_pow16_32()
    ensures
        pow(16, 32) == 0x100000000000000000000000000000000,
{
    reveal_with_fuel(pow, 33);
}

/// Rendering an identifier and parsing the rendering yields the identifier
/// back: the 32-digit form is a faithful, collision-free encoding.
pub proof fn lemma_hex32_roundtrip(v: u128)
    ensures
        parse_id_spec(hex32_of(v)) == Some(v),
{
    lemma_hex_rep_val(v, 32);
    lemma_pow16_32();
}

/// Two identifiers with the same rendering are the same identifier.
pub proof fn lemma_hex32_injective(a: u128, b: u128)
    requires
        hex32_of(a) == hex32_of(b),
    ensures
        a == b,
{
    lemma_hex32_roundtrip(a);
    lemma_hex32_roundtrip(b);
}

impl ImageId {
    /// Relies on `uuid::Uuid::new_v4`: a randomly generated 128-bit value.
    /// Nothing is promised of the value; every caller copes with collisions.
    #[verifier::external_body]
    pub fn mint() -> ImageId {
        ImageId { id: uuid::Uuid::new_v4().as_u128() }
    }

    /// Renders the identifier as its 32 lowercase hexadecimal digits.
    pub fn to_hex(&self) -> (r: String)
        ensures
            r@ == hex32_of(self.id),
    {
        let mut digits: Vec<u8> = Vec::new();
        let mut x: u128 = self.id;
        let mut k: usize = 0;
        proof {
            assert(hex_rep(self.id, 32) =~= hex_rep(self.id, 32) + rev_chars(digits@));
        }
        while k < 32
            invariant
                k <= 32,
                digits@.len() == k,
                forall|j: int| 0 <= j < k ==> #[trigger] digits@[j] < 16,
                hex_rep(self.id, 32) == hex_rep(x, (32 - k) as nat) + rev_chars(digits@),
            decreases 32 - k,
        {
            let ghost old_digits = digits@;
            let ghost old_x = x;
            let d: u8 = (x % 16) as u8;
            digits.push(d);
            x = x / 16;
            k = k + 1;
            proof {
                assert(hex_rep(old_x, (33 - k) as nat) == hex_rep(x, (32 - k) as nat).push(
                    hex_digit_char(d as int)));
                assert(rev_chars(digits@) =~= seq![hex_digit_char(d as int)] + rev_chars(old_digits));
                assert(hex_rep(x, (32 - k) as nat).push(hex_digit_char(d as int)) + rev_chars(old_digits)
                    =~= hex_rep(x, (32 - k) as nat) + (seq![hex_digit_char(d as int)] + rev_chars(old_digits)));
            }
        }
        proof {
            assert(hex_rep(self.id, 32) =~= rev_chars(digits@));
        }
        let mut s = String::new();
        let mut i: usize = 0;
        while i < 32
            invariant
                i <= 32,
                digits@.len() == 32,
                forall|j: int| 0 <= j < 32 ==> #[trigger] digits@[j] < 16,
                hex_rep(self.id, 32) == rev_chars(digits@),
                s@ == rev_chars(digits@).take(i as int),
            decreases 32 - i,
        {
            let d = digits[31 - i];
            push_hex_digit(&mut s, d);
            i = i + 1;
            proof {
                assert(s@ =~= rev_chars(digits@).take(i as int));
            }
        }
        proof {
            assert(s@ =~= hex32_of(self.id));
        }
        s
    }

    /// Parses an identifier from its 32-hexadecimal-digit rendering.
    /// Anything else — wrong length, or a character that is not a
    /// hexadecimal digit — is rejected.
    pub fn from_str(s: &str) -> (r: Option<ImageId>)
        ensures
            r is Some <==> parse_id_spec(s@) is Some,
            r is Some ==> r->0.id == parse_id_spec(s@)->0,
    {
        let n = s.unicode_len();
        if n != 32 {
            return None;
        }
        let mut acc: u128 = 0;
        let mut i: usize = 0;
        while i < 32
            invariant
                i <= 32,
                s@.len() == 32,
                all_hex(s@.take(i as int)),
                acc == hex_seq_val(s@.take(i as int)),
            decreases 32 - i,
        {
            let c = s.get_char(i);
            let d = match hex_val_of_char(c) {
                Some(d) => d,
                None => {
                    return None;
                },
            };
            proof {
                let prefix = s@.take(i as int);
                assert(all_hex(prefix.push(c))) by {
                    assert(forall|j: int| 0 <= j < prefix.len() ==> prefix.push(c)[j] == prefix[j]);
                }
                lemma_hex_seq_val_bound(prefix);
                lemma_pow_strictly_increases(16, i as nat, 32);
                lemma_pow16_32();
                assert(hex_seq_val(prefix) * 16 + 16 <= pow(16, i as nat) * 16) by (nonlinear_arith)
                    requires hex_seq_val(prefix) + 1 <= pow(16, i as nat),
                ;
                lemma_pow_adds(16, i as nat, 1);
                assert(pow(16, 1) == 16) by { reveal_with_fuel(pow, 3); }
                assert(pow(16, (i + 1) as nat) <= pow(16, 32)) by {
                    if i + 1 < 32 {
                        lemma_pow_strictly_increases(16, (i + 1) as nat, 32);
                    }
                }
                assert(s@.take(i + 1).drop_last() =~= s@.take(i as int));
                assert(s@.take(i + 1).last() == s@[i as int]);
            }
            acc = acc * 16 + (d as u128);
            i = i + 1;
        }
        proof {
            assert(s@.take(32) =~= s@);
        }
        Some(ImageId { id: acc })
    }
}

} // verus!
