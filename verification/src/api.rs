use vstd::prelude::*;
use crate::codec::{sniff_format, sniff_of};
use crate::config::{parse_u32, parse_u32_spec};
use crate::database::{Database, SaveImageError, eol_inputs_ok, eol_spec, has_id};
use crate::ident::ImageId;
use crate::image_format::{ImageFormat, parse_format_spec};
use crate::transcode::TranscodeTarget;

verus! {

// ---------------------------------------------------------------------------
// The request-facing surface: query-parameter parsing and the upload entry
// point. The HTTP transport hands plain strings and bytes in and carries
// plain values back; everything decided here is verified.
// ---------------------------------------------------------------------------

/// Why a query string is rejected.
#[derive(Debug, Clone, Copy, PartialEq, Eq, Structural)]
pub enum QueryRejection {
    /// The `format` parameter names no supported format.
    UnsupportedFormat,
    /// A numeric parameter is not an unsigned decimal number in range.
    InvalidNumber,
}

/// The value of an optional parameter, as character sequences.
pub open spec fn opt_param_view(s: Option<&str>) -> Option<Seq<char>> {
    match s {
        None => None,
        Some(t) => Some(t@),
    }
}

/// What the `format` parameter means: absent and empty mean no preference;
/// a recognized tag names the format; anything else rejects the query.
pub open spec fn format_param_spec(s: Option<Seq<char>>) -> Option<Option<ImageFormat>> {
    match s {
        None => Some(None),
        Some(t) => if t.len() == 0 {
            Some(None)
        } else {
            match parse_format_spec(t) {
                Some(f) => Some(Some(f)),
                None => None,
            }
        },
    }
}

/// What a numeric parameter means: absent and empty mean no preference; a
/// decimal number in range names the value; anything else rejects.
pub open spec fn u32_param_spec(s: Option<Seq<char>>) -> Option<Option<u32>> {
    match s {
        None => Some(None),
        Some(t) => if t.len() == 0 {
            Some(None)
        } else {
            match parse_u32_spec(t) {
                Some(v) => Some(Some(v)),
                None => None,
            }
        },
    }
}

/// Reads the `format` query parameter, treating an empty string as absent.
pub fn empty_string_as_none_image_format(s: Option<&str>) -> (r: Result<
    Option<ImageFormat>,
    QueryRejection,
>)
    ensures
        r is Ok <==> format_param_spec(opt_param_view(s)) is Some,
        r is Ok ==> r->Ok_0 == format_param_spec(opt_param_view(s))->0,
        r is Err ==> (r matches Err(QueryRejection::UnsupportedFormat)),
{
    match s {
        None => Ok(None),
        Some(t) => {
            if t.is_empty() {
                Ok(None)
            } else {
                match ImageFormat::from_str(t) {
                    Some(f) => Ok(Some(f)),
                    None => Err(QueryRejection::UnsupportedFormat),
                }
            }
        },
    }
}

/// Reads a numeric query parameter, treating an empty string as absent.
pub fn empty_string_as_none_u32(s: Option<&str>) -> (r: Result<Option<u32>, QueryRejection>)
    ensures
        r is Ok <==> u32_param_spec(opt_param_view(s)) is Some,
        r is Ok ==> r->Ok_0 == u32_param_spec(opt_param_view(s))->0,
        r is Err ==> (r matches Err(QueryRejection::InvalidNumber)),
{
    match s {
        None => Ok(None),
        Some(t) => {
            if t.is_empty() {
                Ok(None)
            } else {
                match parse_u32(t) {
                    Some(v) => Ok(Some(v)),
                    None => Err(QueryRejection::InvalidNumber),
                }
            }
        },
    }
}

/// Reads a whole read-request query: format, width and height. The first
/// offending parameter decides the rejection, format before width before
/// height.
pub fn parse_image_settings(
    format: Option<&str>,
    width: Option<&str>,
    height: Option<&str>,
) -> (r: Result<TranscodeTarget, QueryRejection>)
    ensures
        r is Ok <==> format_param_spec(opt_param_view(format)) is Some && u32_param_spec(
            opt_param_view(width),
        ) is Some && u32_param_spec(opt_param_view(height)) is Some,
        r is Ok ==> r->Ok_0.image_format == format_param_spec(opt_param_view(format))->0
            && r->Ok_0.image_width == u32_param_spec(opt_param_view(width))->0
            && r->Ok_0.image_height == u32_param_spec(opt_param_view(height))->0,
        r matches Err(QueryRejection::UnsupportedFormat) <==> format_param_spec(
            opt_param_view(format),
        ) is None,
        r matches Err(QueryRejection::InvalidNumber) <==> format_param_spec(
            opt_param_view(format),
        ) is Some && (u32_param_spec(opt_param_view(width)) is None || u32_param_spec(
            opt_param_view(height),
        ) is None),
{
    let image_format = match empty_string_as_none_image_format(format) {
        Ok(f) => f,
        Err(e) => {
            return Err(e);
        },
    };
    let image_width = match empty_string_as_none_u32(width) {
        Ok(w) => w,
        Err(e) => {
            return Err(e);
        },
    };
    let image_height = match empty_string_as_none_u32(height) {
        Ok(h) => h,
        Err(e) => {
            return Err(e);
        },
    };
    Ok(TranscodeTarget { image_format, image_width, image_height })
}

/// Why an upload is not accepted.
#[derive(Debug)]
pub enum UploadError {
    /// The bytes carry no recognizable image signature.
    InvalidImageFormat,
    /// Recording the upload failed.
    Save(SaveImageError),
}

/// The upload entry point: sniffs the bytes to reject non-images early,
/// then records the original derivative — always stored as PNG, the
/// canonical storage format — with `computed` false and the capped time to
/// live. The returned identifier is fresh. The uploaded bytes become
/// durable when the worker runs `compute_image` on them.
pub fn upload(database: &mut Database, data: &[u8], ttl_secs: Option<i64>, now: i64) -> (r: Result<
    ImageId,
    UploadError,
>)
    requires
        old(database).wf(),
        eol_inputs_ok(ttl_secs, old(database).image_ttl_allowed, now),
    ensures
        final(database).wf(),
        final(database).store == old(database).store,
        final(database).image_ttl_allowed == old(database).image_ttl_allowed,
        r matches Err(UploadError::InvalidImageFormat) <==> sniff_of(data@) is None,
        r matches Err(UploadError::Save(SaveImageError::TtlNotConfigured)) <==> sniff_of(
            data@,
        ) is Some && eol_spec(ttl_secs, old(database).image_ttl_allowed, now) is None,
        r is Err ==> final(database).rows@ == old(database).rows@,
        r is Ok ==> !has_id(old(database).rows@, r->Ok_0) && final(database).rows@ == old(
            database,
        ).rows@.push(
            (crate::database::ImageRow {
                id: r->Ok_0,
                format: ImageFormat::Png,
                computed: false,
                expires_at: (eol_spec(ttl_secs, old(database).image_ttl_allowed, now)->0) as i64,
            }),
        ),
{
    if sniff_format(data).is_none() {
        return Err(UploadError::InvalidImageFormat);
    }
    match database.save_image(ImageFormat::Png, ttl_secs, now) {
        Ok(id) => Ok(id),
        Err(e) => Err(UploadError::Save(e)),
    }
}

} // verus!
