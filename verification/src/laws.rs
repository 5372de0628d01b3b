use vstd::prelude::*;
use crate::database::{
    Database, ImageRow, expired_computed, find_first, fmt_pred, has_expired_row,
    has_row, keep_pred, lemma_filter_push, lemma_filter_subset, lemma_live_after_sweep,
    lemma_row_of_at, live_pred, live_rows, path_spec, row_of, rows_after_read, rows_unique,
    eol_spec,
};
use crate::ident::{ImageId, hex32_of};
use crate::image_format::ImageFormat;
use crate::object_store::{file_bytes, has_file};
use crate::transcode::{served_persisted, served_swept};

verus! {

// ---------------------------------------------------------------------------
// The laws of the lifecycle engine, stated once and proved from the
// contracts of the stores and the pipelines.
// ---------------------------------------------------------------------------

/// When the server caps the time to live at `m` and a client requests `r`,
/// the stored expiry is `now` plus the smaller of the two.
pub proof fn lemma_ttl_cap(requested: i64, max: i64, now: i64)
    ensures
        eol_spec(Some(requested), Some(max), now) == Some(
            now + if requested <= max {
                requested as int
            } else {
                max as int
            },
        ),
{
}

/// With positive times to live, every freshly inserted row expires
/// strictly in the future.
pub proof fn lemma_insert_expiry_future(requested: Option<i64>, max: Option<i64>, now: i64)
    requires
        eol_spec(requested, max, now) is Some,
        requested matches Some(r) ==> r > 0,
        max matches Some(m) ==> m > 0,
    ensures
        eol_spec(requested, max, now)->0 > now,
{
}

/// Expiration: once a computed derivative has expired, any read of its
/// identifier that leaves the engine in the swept state removes both its
/// row and its file.
pub proof fn lemma_expiration(pre: Database, post: Database, id: ImageId, format: ImageFormat, now: i64)
    requires
        pre.wf(),
        expired_computed(pre.rows@, id, format, now),
        served_swept(pre, post, id, now),
    ensures
        !has_row(post.rows@, id, format),
        !has_file(post.store.files@, id, format),
{
    let j = choose|j: int|
        #![trigger pre.rows@[j]]
        0 <= j < pre.rows@.len() && pre.rows@[j].id == id && pre.rows@[j].format == format;
    lemma_row_of_at(pre.rows@, id, format, j);
    assert(has_expired_row(pre.rows@, id, now)) by {
        assert(pre.rows@[j].id == id && pre.rows@[j].expires_at < now);
    }
    assert(post.rows@ == pre.rows@.filter(keep_pred(now)));
    if has_row(post.rows@, id, format) {
        let a = choose|a: int|
            #![trigger post.rows@[a]]
            0 <= a < post.rows@.len() && post.rows@[a].id == id && post.rows@[a].format == format;
        pre.rows@.lemma_filter_pred(keep_pred(now), a);
        lemma_filter_subset(pre.rows@, keep_pred(now));
        let b = choose|b: int|
            #![trigger pre.rows@[b]]
            0 <= b < pre.rows@.len() && post.rows@[a] == pre.rows@[b];
        lemma_row_of_at(pre.rows@, id, format, b);
    }
}

/// The kept rows satisfy the sweeper's keep predicate.
proof fn lemma_kept_pred(rows: Seq<ImageRow>, now: i64, a: int)
    requires
        0 <= a < rows.filter(keep_pred(now)).len(),
    ensures
        keep_pred(now)(rows.filter(keep_pred(now))[a]),
{
    rows.lemma_filter_pred(keep_pred(now), a);
}

/// The sweep's exact scope: it deletes the rows that are both expired and
/// computed, and no others. In particular a row that never became computed
/// — a crashed worker's leftover — is not deleted.
pub proof fn lemma_sweep_exact(rows: Seq<ImageRow>, id: ImageId, format: ImageFormat, now: i64)
    requires
        rows_unique(rows),
    ensures
        has_row(rows.filter(keep_pred(now)), id, format) == (has_row(rows, id, format)
            && !expired_computed(rows, id, format, now)),
        has_row(rows, id, format) && !expired_computed(rows, id, format, now) ==> row_of(
            rows.filter(keep_pred(now)),
            id,
            format,
        ) == row_of(rows, id, format),
{
    let kept = rows.filter(keep_pred(now));
    if has_row(kept, id, format) {
        let a = choose|a: int|
            #![trigger kept[a]]
            0 <= a < kept.len() && kept[a].id == id && kept[a].format == format;
        lemma_kept_pred(rows, now, a);
        lemma_filter_subset(rows, keep_pred(now));
        let b = choose|b: int| #![trigger rows[b]] 0 <= b < rows.len() && kept[a] == rows[b];
        lemma_row_of_at(rows, id, format, b);
    }
    if has_row(rows, id, format) && !expired_computed(rows, id, format, now) {
        let j = choose|j: int|
            #![trigger rows[j]]
            0 <= j < rows.len() && rows[j].id == id && rows[j].format == format;
        lemma_row_of_at(rows, id, format, j);
        assert(keep_pred(now)(rows[j]));
        rows.lemma_filter_contains(keep_pred(now), j);
        let a = choose|a: int| 0 <= a < kept.len() && kept[a] == rows[j];
        assert(rows_unique(kept)) by {
            crate::database::lemma_rows_filter_unique(rows, keep_pred(now));
        }
        lemma_row_of_at(kept, id, format, a);
    }
}

/// Path derivation is collision-free: two derivatives share a path only if
/// they are the same derivative, so every object-store file is owned by
/// exactly one (identifier, format) pair.
pub proof fn lemma_path_injective(
    folder: Seq<char>,
    a: u128,
    fa: ImageFormat,
    b: u128,
    fb: ImageFormat,
)
    requires
        path_spec(folder, a, fa) == path_spec(folder, b, fb),
    ensures
        a == b,
        fa == fb,
{
    let pa = path_spec(folder, a, fa);
    let pb = path_spec(folder, b, fb);
    let n = folder.len() as int;
    crate::ident::lemma_hex32_roundtrip(a);
    crate::ident::lemma_hex32_roundtrip(b);
    assert(hex32_of(a).len() == 32 && hex32_of(b).len() == 32);
    reveal_strlit("/");
    reveal_strlit(".");
    crate::image_format::lemma_tag_len(fa);
    crate::image_format::lemma_tag_len(fb);
    assert(pa.len() == n + 34 + fa.tag_spec().len());
    assert(pb.len() == n + 34 + fb.tag_spec().len());
    assert(fa.tag_spec().len() == fb.tag_spec().len());
    assert(hex32_of(a) =~= hex32_of(b)) by {
        assert forall|i: int| 0 <= i < 32 implies hex32_of(a)[i] == hex32_of(b)[i] by {
            assert(pa[n + 1 + i] == hex32_of(a)[i]);
            assert(pb[n + 1 + i] == hex32_of(b)[i]);
        }
    }
    crate::ident::lemma_hex32_injective(a, b);
    assert(fa.tag_spec() =~= fb.tag_spec()) by {
        assert forall|i: int| 0 <= i < fa.tag_spec().len() implies fa.tag_spec()[i]
            == fb.tag_spec()[i] by {
            assert(pa[n + 34 + i] == fa.tag_spec()[i]);
            assert(pb[n + 34 + i] == fb.tag_spec()[i]);
        }
    }
    crate::image_format::lemma_tag_roundtrip(fa);
    crate::image_format::lemma_tag_roundtrip(fb);
}

/// Finding the first match in a sequence extended by one element.
proof fn lemma_find_first_push(rows: Seq<ImageRow>, x: ImageRow, pred: spec_fn(ImageRow) -> bool)
    ensures
        find_first(rows.push(x), pred) == if find_first(rows, pred) is Some {
            find_first(rows, pred)
        } else if pred(x) {
            Some(x)
        } else {
            None::<ImageRow>
        },
    decreases rows.len(),
{
    if rows.len() == 0 {
        assert(rows.push(x)[0] == x);
        if !pred(x) {
            assert(rows.push(x).drop_first() =~= rows);
        }
    } else {
        assert(rows.push(x)[0] == rows[0]);
        if !pred(rows[0]) {
            assert(rows.push(x).drop_first() =~= rows.drop_first().push(x));
            lemma_find_first_push(rows.drop_first(), x, pred);
        }
    }
}

/// Lazy-derivative idempotence, in the serialized engine: after a read has
/// persisted the missing derivative `(id, format)` with bytes `b`, exactly
/// one row for the key exists, the derivative resolves as a computed hit,
/// and the stored bytes are `b` — so a second read of the same derivative
/// without a resize takes the fast path and returns the identical bytes.
pub proof fn lemma_lazy_derivative_idempotent(
    pre: Database,
    post: Database,
    id: ImageId,
    format: ImageFormat,
    bytes: Seq<u8>,
    expires_at: i64,
    now: i64,
)
    requires
        pre.wf(),
        find_first(live_rows(pre.rows@, id, now), fmt_pred(format)) is None,
        expires_at >= now,
        served_persisted(pre, post, id, format, bytes, expires_at, now),
    ensures
        rows_unique(post.rows@),
        has_row(post.rows@, id, format),
        find_first(live_rows(post.rows@, id, now), fmt_pred(format)) == Some(
            (ImageRow { id, format, computed: true, expires_at }),
        ),
        find_first(live_rows(post.rows@, id, now), fmt_pred(format))->0.computed,
        file_bytes(post.store.files@, id, format) == bytes,
{
    let new_row = ImageRow { id, format, computed: true, expires_at };
    let swept = rows_after_read(pre.rows@, id, now);
    assert(post.rows@ == swept.push(new_row));
    assert(has_row(post.rows@, id, format)) by {
        assert(post.rows@[swept.len() as int] == new_row);
    }
    assert(live_rows(swept, id, now) == live_rows(pre.rows@, id, now)) by {
        if has_expired_row(pre.rows@, id, now) {
            lemma_live_after_sweep(pre.rows@, id, now);
        }
    }
    lemma_filter_push(swept, new_row, live_pred(id, now));
    assert(live_pred(id, now)(new_row));
    assert(live_rows(post.rows@, id, now) == live_rows(pre.rows@, id, now).push(new_row));
    lemma_find_first_push(live_rows(pre.rows@, id, now), new_row, fmt_pred(format));
}

} // verus!
