use vstd::prelude::*;
use crate::codec::{DecodedImage, decode_bytes, decode_ok, encode_of, resized_of, width_of, height_of};
use crate::database::{
    Database, GetImageError, ImageRow, InsertError, computed_pred, expired_computed, find_first,
    fmt_pred, has_expired_row, has_row, lemma_filter_subset, lemma_find_first_mem,
    lemma_live_after_sweep, lemma_row_of_at, live_pred, live_rows, rows_after_read,
};
use crate::ident::ImageId;
use crate::image_format::ImageFormat;
use crate::object_store::{file_bytes, has_file};

verus! {

// ---------------------------------------------------------------------------
// The transcode/serve pipeline: resolve a derivative, serve it verbatim on
// the fast path, or synthesize and persist the missing derivative from an
// existing one.
// ---------------------------------------------------------------------------

/// What a read asks for: an output format (PNG when omitted) and optional
/// bounds. When neither bound is given and the stored format matches, the
/// stored bytes are served verbatim.
#[derive(Debug, Clone, Copy)]
pub struct TranscodeTarget {
    pub image_format: Option<ImageFormat>,
    pub image_width: Option<u32>,
    pub image_height: Option<u32>,
}

impl TranscodeTarget {
    /// The effective output format: PNG where none is requested.
    pub open spec fn target_format_spec(self) -> ImageFormat {
        match self.image_format {
            Some(f) => f,
            None => ImageFormat::Png,
        }
    }

    /// Whether the request asks for a resize at all.
    pub open spec fn wants_resize(self) -> bool {
        self.image_width is Some || self.image_height is Some
    }

    /// The resize bound in each axis, with the source's own size filling a
    /// missing one.
    pub open spec fn bound_width(self, img: Seq<u8>) -> u32 {
        match self.image_width {
            Some(w) => w,
            None => width_of(img),
        }
    }

    pub open spec fn bound_height(self, img: Seq<u8>) -> u32 {
        match self.image_height {
            Some(h) => h,
            None => height_of(img),
        }
    }
}

/// The pixel identity after the requested transformation of `img`.
pub open spec fn transformed_spec(img: Seq<u8>, t: TranscodeTarget) -> Seq<u8> {
    if t.wants_resize() {
        resized_of(img, t.bound_width(img), t.bound_height(img))
    } else {
        img
    }
}

/// The bytes the transcoder produces for `img` under `t`, where the codec
/// can encode the transformed pixels in the target format.
pub open spec fn transcode_spec(img: Seq<u8>, t: TranscodeTarget) -> Option<Seq<u8>> {
    encode_of(transformed_spec(img, t), t.target_format_spec())
}

/// Why a read could not be served.
#[derive(Debug)]
pub enum TranscoderError {
    /// The codec failed to decode, resize or encode.
    ImageError(image::ImageError),
    /// The derivative's row exists but its bytes are not durable yet.
    NotComputed,
    /// No live derivative exists for the identifier.
    NotFound,
    /// A store failure, or stored bytes that no longer decode.
    InternalServerError,
}

/// Resizes the image as the request asks — Lanczos3, aspect ratio kept,
/// missing bounds filled from the source — and encodes it to the target
/// format.
pub fn transcode(image: &DecodedImage, settings: TranscodeTarget) -> (r: Result<Vec<u8>, image::ImageError>)
    requires
        image.fresh(),
    ensures
        r is Ok <==> transcode_spec(image@, settings) is Some,
        r is Ok ==> r->Ok_0@ == transcode_spec(image@, settings)->0,
{
    let format = match settings.image_format {
        Some(f) => f,
        None => ImageFormat::Png,
    };
    if settings.image_width.is_some() || settings.image_height.is_some() {
        let w = match settings.image_width {
            Some(w) => w,
            None => image.width(),
        };
        let h = match settings.image_height {
            Some(h) => h,
            None => image.height(),
        };
        let resized = image.resize(w, h);
        resized.encode(format)
    } else {
        image.encode(format)
    }
}

/// The engine state after a read that only swept: the rows after the
/// opportunistic sweep, and the files of every key that was not both
/// expired and computed, bytes untouched.
pub open spec fn served_swept(pre: Database, post: Database, id: ImageId, now: i64) -> bool {
    &&& post.wf()
    &&& post.image_ttl_allowed == pre.image_ttl_allowed
    &&& post.store.image_location == pre.store.image_location
    &&& post.rows@ == rows_after_read(pre.rows@, id, now)
    &&& forall|oid: ImageId, of: ImageFormat|
        #[trigger] has_file(post.store.files@, oid, of) == (has_file(pre.store.files@, oid, of)
            && !(has_expired_row(pre.rows@, id, now) && expired_computed(pre.rows@, oid, of, now)))
    &&& forall|oid: ImageId, of: ImageFormat|
        #![trigger file_bytes(post.store.files@, oid, of)]
        has_file(post.store.files@, oid, of) ==> file_bytes(post.store.files@, oid, of)
            == file_bytes(pre.store.files@, oid, of)
}

/// The engine state after a read that swept and then persisted a lazy
/// derivative `(id, format)` holding `bytes`, expiring at `expires_at`.
pub open spec fn served_persisted(
    pre: Database,
    post: Database,
    id: ImageId,
    format: ImageFormat,
    bytes: Seq<u8>,
    expires_at: i64,
    now: i64,
) -> bool {
    &&& post.wf()
    &&& post.image_ttl_allowed == pre.image_ttl_allowed
    &&& post.store.image_location == pre.store.image_location
    &&& post.rows@ == rows_after_read(pre.rows@, id, now).push(
        (ImageRow { id, format, computed: true, expires_at }),
    )
    &&& has_file(post.store.files@, id, format)
    &&& file_bytes(post.store.files@, id, format) == bytes
    &&& forall|oid: ImageId, of: ImageFormat|
        !(oid == id && of == format) ==> #[trigger] has_file(post.store.files@, oid, of) == (
        has_file(pre.store.files@, oid, of) && !(has_expired_row(pre.rows@, id, now)
            && expired_computed(pre.rows@, oid, of, now)))
    &&& forall|oid: ImageId, of: ImageFormat|
        #![trigger file_bytes(post.store.files@, oid, of)]
        !(oid == id && of == format) && has_file(post.store.files@, oid, of) ==> file_bytes(
            post.store.files@,
            oid,
            of,
        ) == file_bytes(pre.store.files@, oid, of)
}

/// Serves a derivative. A read first posts the opportunistic sweep when any
/// row of the identifier has expired; then, among the identifier's live
/// rows: a row in the target format serves its bytes — verbatim when no
/// resize is asked, else decoded, resized and re-encoded; with no such row,
/// the first live computed row is decoded, transformed, encoded to the
/// target format, and persisted as a new derivative that inherits the
/// source row's expiry (a race loser's conflict still serves the bytes);
/// and with no live row at all the read fails with `NotFound`.
pub fn get_image(
    database: &mut Database,
    image_id: &ImageId,
    settings: TranscodeTarget,
    now: i64,
) -> (r: Result<Vec<u8>, TranscoderError>)
    requires
        old(database).wf(),
    ensures
        ({
            let pre = *old(database);
            let post = *final(database);
            let live = live_rows(pre.rows@, *image_id, now);
            let f = settings.target_format_spec();
            match find_first(live, fmt_pred(f)) {
                Some(row) => {
                    if row.computed {
                        if !settings.wants_resize() {
                            &&& r is Ok
                            &&& r->Ok_0@ == file_bytes(pre.store.files@, *image_id, f)
                            &&& served_swept(pre, post, *image_id, now)
                        } else {
                            let src = file_bytes(pre.store.files@, *image_id, f);
                            &&& served_swept(pre, post, *image_id, now)
                            &&& decode_ok(src) ==> (r is Ok <==> transcode_spec(src, settings) is Some)
                            &&& decode_ok(src) && r is Ok ==> r->Ok_0@ == transcode_spec(src, settings)->0
                            &&& !decode_ok(src) ==> (r matches Err(TranscoderError::InternalServerError))
                            &&& decode_ok(src) && transcode_spec(src, settings) is None
                                ==> (r matches Err(TranscoderError::ImageError(_)))
                        }
                    } else {
                        &&& r matches Err(TranscoderError::NotComputed)
                        &&& served_swept(pre, post, *image_id, now)
                    }
                },
                None => {
                    if live.len() == 0 {
                        &&& r matches Err(TranscoderError::NotFound)
                        &&& served_swept(pre, post, *image_id, now)
                    } else {
                        match find_first(live, computed_pred()) {
                            Some(srow) => {
                                let src = file_bytes(pre.store.files@, *image_id, srow.format);
                                &&& !decode_ok(src) ==> (r matches Err(
                                    TranscoderError::InternalServerError,
                                )) && served_swept(pre, post, *image_id, now)
                                &&& decode_ok(src) && transcode_spec(src, settings) is None
                                    ==> (r matches Err(TranscoderError::ImageError(_)))
                                    && served_swept(pre, post, *image_id, now)
                                &&& decode_ok(src) && transcode_spec(src, settings) is Some ==> {
                                    &&& r is Ok
                                    &&& r->Ok_0@ == transcode_spec(src, settings)->0
                                    &&& if has_row(rows_after_read(pre.rows@, *image_id, now), *image_id, f) {
                                        served_swept(pre, post, *image_id, now)
                                    } else {
                                        served_persisted(
                                            pre,
                                            post,
                                            *image_id,
                                            f,
                                            transcode_spec(src, settings)->0,
                                            srow.expires_at,
                                            now,
                                        )
                                    }
                                }
                            },
                            None => {
                                &&& r matches Err(TranscoderError::NotComputed)
                                &&& served_swept(pre, post, *image_id, now)
                            },
                        }
                    }
                },
            }
        }),
{
    let ghost pre = *old(database);
    let ghost live = live_rows(pre.rows@, *image_id, now);
    let sweep = database.needs_sweep(image_id, now);
    if sweep {
        database.clean_expired(now);
    }
    proof {
        lemma_live_after_sweep(pre.rows@, *image_id, now);
        assert(live_rows(database.rows@, *image_id, now) == live);
        assert(served_swept(pre, *database, *image_id, now));
    }
    let ghost mid = *database;
    let target = match settings.image_format {
        Some(f) => f,
        None => ImageFormat::Png,
    };
    match database.get_image_location(image_id, target, now) {
        Ok(_path) => {
            proof {
                lemma_hit_row_file(pre, mid, *image_id, target, now);
            }
            let bytes = match database.store.read(image_id, target) {
                Some(b) => b,
                None => {
                    proof {
                        // the resolved row is computed, so its file exists
                        assert(false);
                    }
                    return Err(TranscoderError::InternalServerError);
                },
            };
            if settings.image_width.is_none() && settings.image_height.is_none() {
                Ok(bytes)
            } else {
                let img = match decode_bytes(bytes.as_slice()) {
                    Ok(d) => d,
                    Err(_) => {
                        return Err(TranscoderError::InternalServerError);
                    },
                };
                match transcode(&img, settings) {
                    Ok(out) => Ok(out),
                    Err(e) => Err(TranscoderError::ImageError(e)),
                }
            }
        },
        Err(GetImageError::FoundButNotInFormat(src)) => {
            proof {
                lemma_source_row_file(pre, mid, *image_id, target, now);
            }
            let bytes = match database.store.read(image_id, src.format) {
                Some(b) => b,
                None => {
                    proof {
                        // the source row is computed, so its file exists
                        assert(false);
                    }
                    return Err(TranscoderError::InternalServerError);
                },
            };
            let img = match decode_bytes(bytes.as_slice()) {
                Ok(d) => d,
                Err(_) => {
                    return Err(TranscoderError::InternalServerError);
                },
            };
            let out = match transcode(&img, settings) {
                Ok(o) => o,
                Err(e) => {
                    return Err(TranscoderError::ImageError(e));
                },
            };
            match database.save_raw_image(out.clone(), *image_id, target, src.expires_at) {
                Ok(()) => Ok(out),
                Err(InsertError::Conflict) => Ok(out),
            }
        },
        Err(GetImageError::NotComputed) => Err(TranscoderError::NotComputed),
        Err(GetImageError::NotFound) => Err(TranscoderError::NotFound),
        Err(GetImageError::InternalServerError) => Err(TranscoderError::InternalServerError),
    }
}

/// After the sweep, the live row found in the requested format still has
/// its file, with the bytes it had before the sweep.
proof fn lemma_hit_row_file(pre: Database, mid: Database, id: ImageId, format: ImageFormat, now: i64)
    requires
        pre.wf(),
        served_swept(pre, mid, id, now),
        find_first(live_rows(mid.rows@, id, now), fmt_pred(format)) is Some,
        live_rows(mid.rows@, id, now) == live_rows(pre.rows@, id, now),
        find_first(live_rows(mid.rows@, id, now), fmt_pred(format))->0.computed,
    ensures
        has_file(mid.store.files@, id, format),
        file_bytes(mid.store.files@, id, format) == file_bytes(pre.store.files@, id, format),
        has_file(pre.store.files@, id, format),
{
    let live = live_rows(pre.rows@, id, now);
    let row = find_first(live, fmt_pred(format))->0;
    lemma_find_first_mem(live, fmt_pred(format));
    let a = choose|a: int| #![trigger live[a]] 0 <= a < live.len() && live[a] == row;
    pre.rows@.lemma_filter_pred(live_pred(id, now), a);
    lemma_filter_subset(pre.rows@, live_pred(id, now));
    let j = choose|j: int| #![trigger pre.rows@[j]] 0 <= j < pre.rows@.len() && live[a] == pre.rows@[j];
    lemma_row_of_at(pre.rows@, id, format, j);
    assert(has_file(pre.store.files@, id, format));
    assert(!expired_computed(pre.rows@, id, format, now));
}

/// After the sweep, the live, computed source row found for a lazy
/// transcode still has its file, with the bytes it had before the sweep.
proof fn lemma_source_row_file(pre: Database, mid: Database, id: ImageId, target: ImageFormat, now: i64)
    requires
        pre.wf(),
        served_swept(pre, mid, id, now),
        live_rows(mid.rows@, id, now) == live_rows(pre.rows@, id, now),
        find_first(live_rows(mid.rows@, id, now), fmt_pred(target)) is None,
        live_rows(mid.rows@, id, now).len() > 0,
        find_first(live_rows(mid.rows@, id, now), computed_pred()) is Some,
    ensures
        ({
            let srow = find_first(live_rows(pre.rows@, id, now), computed_pred())->0;
            &&& has_file(mid.store.files@, id, srow.format)
            &&& file_bytes(mid.store.files@, id, srow.format) == file_bytes(
                pre.store.files@,
                id,
                srow.format,
            )
            &&& has_file(pre.store.files@, id, srow.format)
        }),
{
    let live = live_rows(pre.rows@, id, now);
    let srow = find_first(live, computed_pred())->0;
    lemma_find_first_mem(live, computed_pred());
    let a = choose|a: int| #![trigger live[a]] 0 <= a < live.len() && live[a] == srow;
    pre.rows@.lemma_filter_pred(live_pred(id, now), a);
    lemma_filter_subset(pre.rows@, live_pred(id, now));
    let j = choose|j: int| #![trigger pre.rows@[j]] 0 <= j < pre.rows@.len() && live[a] == pre.rows@[j];
    lemma_row_of_at(pre.rows@, id, srow.format, j);
    assert(has_file(pre.store.files@, id, srow.format));
    assert(!expired_computed(pre.rows@, id, srow.format, now));
}

} // verus!
