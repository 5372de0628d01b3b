use vstd::prelude::*;
use vstd::string::*;
use crate::Config;
use crate::codec::{decode_bytes, decode_ok, encode_of};
use crate::ident::{ImageId, hex32_of};
use crate::image_format::ImageFormat;
use crate::object_store::{ObjectStore, has_file, file_bytes, files_unique};
use crate::transcode::TranscoderError;

verus! {

// ---------------------------------------------------------------------------
// The metadata store and the lifecycle engine built on it.
//
// One row per (identifier, format) derivative, each with a `computed` flag
// and an expiry instant (seconds since the Unix epoch). The store keeps the
// keys unique, and in a well-formed engine a file exists for a derivative
// exactly when its row is marked computed.
// ---------------------------------------------------------------------------

/// Why a derivative could not be served from the metadata alone.
#[derive(Debug)]
pub enum GetImageError {
    /// The requested derivative's row exists but its bytes are not durable yet.
    NotComputed,
    /// No live row exists for the identifier.
    NotFound,
    /// No live row in the requested format, but another live, computed
    /// derivative of the identifier can serve as the transcode source.
    FoundButNotInFormat(SourceDerivative),
    /// The store itself failed.
    InternalServerError,
}

/// The source derivative picked for a lazy transcode: where its bytes are,
/// its format, and the expiry the new derivative inherits.
#[derive(Debug)]
pub struct SourceDerivative {
    pub path: ImagePath,
    pub format: ImageFormat,
    pub expires_at: i64,
}

/// Why an upload could not be recorded.
#[derive(Debug)]
pub enum SaveImageError {
    /// Neither the client nor the server configuration supplies a time to
    /// live; rows without an expiry are not supported.
    TtlNotConfigured,
    /// The store failed; here, identifier minting gave up after repeated
    /// collisions.
    InternalServerError,
}

/// Why a row could not be inserted.
#[derive(Debug)]
pub enum InsertError {
    /// A row with the same (identifier, format) key already exists.
    Conflict,
}

/// The outcome of resolving a read against the rows of one identifier.
#[derive(Debug, Clone, Copy, PartialEq, Eq, Structural)]
pub enum RowResolution {
    /// A live row in the requested format exists and is computed.
    Found,
    /// A live row in the requested format exists, but its bytes are not
    /// durable yet.
    NotComputedYet,
    /// No live row at all.
    NotFound,
    /// No live row in the requested format: transcode from the first live,
    /// computed derivative, whose format and expiry these are.
    UseSource(ImageFormat, i64),
    /// Live rows exist, but none is computed: nothing can serve as a
    /// transcode source yet.
    NoComputedSource,
}

/// One metadata row: a derivative that exists or is being computed.
#[derive(Debug, Clone, Copy, PartialEq, Eq, Structural)]
pub struct ImageRow {
    pub id: ImageId,
    pub format: ImageFormat,
    pub computed: bool,
    pub expires_at: i64,
}

/// Whether a row with the key `(id, format)` exists.
pub open spec fn has_row(rows: Seq<ImageRow>, id: ImageId, format: ImageFormat) -> bool {
    exists|i: int| #![trigger rows[i]] 0 <= i < rows.len() && rows[i].id == id && rows[i].format == format
}

/// The row with the key `(id, format)`, where one exists.
pub open spec fn row_of(rows: Seq<ImageRow>, id: ImageId, format: ImageFormat) -> ImageRow {
    let i = choose|i: int| #![trigger rows[i]] 0 <= i < rows.len() && rows[i].id == id && rows[i].format == format;
    rows[i]
}

/// No two rows share a key: (identifier, format) is the primary key.
pub open spec fn rows_unique(rows: Seq<ImageRow>) -> bool {
    forall|i: int, j: int| #![trigger rows[i], rows[j]] 0 <= i < j < rows.len()
        ==> !(rows[i].id == rows[j].id && rows[i].format == rows[j].format)
}

/// Whether any row carries the identifier.
pub open spec fn has_id(rows: Seq<ImageRow>, id: ImageId) -> bool {
    exists|i: int| #![trigger rows[i]] 0 <= i < rows.len() && rows[i].id == id
}

/// Under unique keys, the row at a matching index is the row of its key.
pub proof fn lemma_row_of_at(rows: Seq<ImageRow>, id: ImageId, format: ImageFormat, i: int)
    requires
        rows_unique(rows),
        0 <= i < rows.len(),
        rows[i].id == id,
        rows[i].format == format,
    ensures
        has_row(rows, id, format),
        row_of(rows, id, format) == rows[i],
{
    let j = choose|j: int| #![trigger rows[j]] 0 <= j < rows.len() && rows[j].id == id && rows[j].format == format;
}

/// Keeps the rows that carry `id`.
pub open spec fn id_pred(id: ImageId) -> spec_fn(ImageRow) -> bool {
    |row: ImageRow| row.id == id
}

/// Keeps the rows that carry `id` and have not expired at `now`.
pub open spec fn live_pred(id: ImageId, now: i64) -> spec_fn(ImageRow) -> bool {
    |row: ImageRow| row.id == id && row.expires_at >= now
}

/// The live rows of an identifier: not yet expired at `now`, in store order.
pub open spec fn live_rows(rows: Seq<ImageRow>, id: ImageId, now: i64) -> Seq<ImageRow> {
    rows.filter(live_pred(id, now))
}

/// Whether some row of `id` has expired at `now` — the condition on which
/// a read posts an opportunistic sweep.
pub open spec fn has_expired_row(rows: Seq<ImageRow>, id: ImageId, now: i64) -> bool {
    exists|i: int| #![trigger rows[i]] 0 <= i < rows.len() && rows[i].id == id
        && rows[i].expires_at < now
}

/// The metadata rows after the opportunistic sweep a read of `id` triggers:
/// swept exactly when some row of `id` has expired.
pub open spec fn rows_after_read(rows: Seq<ImageRow>, id: ImageId, now: i64) -> Seq<ImageRow> {
    if has_expired_row(rows, id, now) {
        rows.filter(keep_pred(now))
    } else {
        rows
    }
}

/// The sweep deletes only expired rows, so the live rows of an identifier
/// are the same before and after it.
pub proof fn lemma_live_after_sweep(rows: Seq<ImageRow>, id: ImageId, now: i64)
    ensures
        live_rows(rows.filter(keep_pred(now)), id, now) == live_rows(rows, id, now),
    decreases rows.len(),
{
    reveal(Seq::filter);
    if rows.len() > 0 {
        let prefix = rows.drop_last();
        let x = rows.last();
        lemma_live_after_sweep(prefix, id, now);
        lemma_filter_push(prefix, x, keep_pred(now));
        assert(prefix.push(x) =~= rows);
        if keep_pred(now)(x) {
            lemma_filter_push(prefix.filter(keep_pred(now)), x, live_pred(id, now));
        }
        lemma_filter_push(prefix, x, live_pred(id, now));
    }
}

/// A found first row is a row of the sequence, and the predicate holds of it.
pub proof fn lemma_find_first_mem(rows: Seq<ImageRow>, pred: spec_fn(ImageRow) -> bool)
    requires
        find_first(rows, pred) is Some,
    ensures
        pred(find_first(rows, pred)->0),
        exists|i: int| #![trigger rows[i]] 0 <= i < rows.len() && rows[i] == find_first(rows, pred)->0,
    decreases rows.len(),
{
    if rows.len() > 0 {
        if pred(rows[0]) {
        } else {
            assert(forall|i: int| 0 <= i < rows.drop_first().len()
                ==> #[trigger] rows.drop_first()[i] == rows[i + 1]);
            lemma_find_first_mem(rows.drop_first(), pred);
            let i = choose|i: int| #![trigger rows.drop_first()[i]] 0 <= i < rows.drop_first().len()
                && rows.drop_first()[i] == find_first(rows.drop_first(), pred)->0;
            assert(rows[i + 1] == find_first(rows, pred)->0);
        }
    }
}

/// Filtering a sequence extended by one element.
pub proof fn lemma_filter_push<A>(s: Seq<A>, x: A, pred: spec_fn(A) -> bool)
    ensures
        s.push(x).filter(pred) == if pred(x) {
            s.filter(pred).push(x)
        } else {
            s.filter(pred)
        },
{
    reveal(Seq::filter);
    assert(s.push(x).drop_last() =~= s);
    assert(s.push(x).last() == x);
}

/// The first row of `rows` that `pred` accepts, in store order.
pub open spec fn find_first(rows: Seq<ImageRow>, pred: spec_fn(ImageRow) -> bool) -> Option<ImageRow>
    decreases rows.len(),
{
    if rows.len() == 0 {
        None
    } else if pred(rows[0]) {
        Some(rows[0])
    } else {
        find_first(rows.drop_first(), pred)
    }
}

/// Rows that have not expired at `now`, whatever identifier they carry.
pub open spec fn expiry_pred(now: i64) -> spec_fn(ImageRow) -> bool {
    |row: ImageRow| row.expires_at >= now
}

/// Rows in the requested format.
pub open spec fn fmt_pred(format: ImageFormat) -> spec_fn(ImageRow) -> bool {
    |row: ImageRow| row.format == format
}

/// Rows whose bytes are durable.
pub open spec fn computed_pred() -> spec_fn(ImageRow) -> bool {
    |row: ImageRow| row.computed
}

proof fn lemma_find_first_none(rows: Seq<ImageRow>, pred: spec_fn(ImageRow) -> bool)
    requires
        forall|i: int| 0 <= i < rows.len() ==> !pred(#[trigger] rows[i]),
    ensures
        find_first(rows, pred) is None,
    decreases rows.len(),
{
    if rows.len() > 0 {
        assert(forall|i: int| 0 <= i < rows.drop_first().len() ==> rows.drop_first()[i] == rows[i + 1]);
        lemma_find_first_none(rows.drop_first(), pred);
    }
}

proof fn lemma_find_first_at(rows: Seq<ImageRow>, pred: spec_fn(ImageRow) -> bool, i: int)
    requires
        0 <= i < rows.len(),
        pred(rows[i]),
        forall|j: int| 0 <= j < i ==> !pred(#[trigger] rows[j]),
    ensures
        find_first(rows, pred) == Some(rows[i]),
    decreases rows.len(),
{
    if i > 0 {
        assert(forall|j: int| 0 <= j < rows.drop_first().len() ==> rows.drop_first()[j] == rows[j + 1]);
        lemma_find_first_at(rows.drop_first(), pred, i - 1);
    }
}

/// Rows that the expiration sweeper keeps: not both expired and computed.
pub open spec fn keep_pred(now: i64) -> spec_fn(ImageRow) -> bool {
    |row: ImageRow| !(row.expires_at < now && row.computed)
}

/// Rows that the expiration sweeper deletes: expired, with durable bytes.
pub open spec fn gone_pred(now: i64) -> spec_fn(ImageRow) -> bool {
    |row: ImageRow| row.expires_at < now && row.computed
}

/// The key of a row.
pub open spec fn row_key() -> spec_fn(ImageRow) -> (ImageId, ImageFormat) {
    |row: ImageRow| (row.id, row.format)
}

/// Whether a key list carries `(id, format)`.
pub open spec fn keys_contain(keys: Seq<(ImageId, ImageFormat)>, id: ImageId, format: ImageFormat) -> bool {
    exists|i: int| #![trigger keys[i]] 0 <= i < keys.len() && keys[i] == (id, format)
}

/// Whether the row of `(id, format)` exists, has durable bytes, and has
/// expired at `now` — the condition under which the sweeper deletes it.
pub open spec fn expired_computed(rows: Seq<ImageRow>, id: ImageId, format: ImageFormat, now: i64) -> bool {
    has_row(rows, id, format) && row_of(rows, id, format).computed
        && row_of(rows, id, format).expires_at < now
}

/// Updating a row in place, key unchanged, leaves every other key's row as
/// it was, and the keys unique.
proof fn lemma_rows_update_frame(prev: Seq<ImageRow>, i: int, new_row: ImageRow)
    requires
        rows_unique(prev),
        0 <= i < prev.len(),
        new_row.id == prev[i].id,
        new_row.format == prev[i].format,
    ensures
        rows_unique(prev.update(i, new_row)),
        forall|oid: ImageId, of: ImageFormat|
            #[trigger] has_row(prev.update(i, new_row), oid, of) == has_row(prev, oid, of),
        forall|oid: ImageId, of: ImageFormat|
            #![trigger row_of(prev.update(i, new_row), oid, of)]
            !(oid == prev[i].id && of == prev[i].format) && has_row(prev, oid, of)
                ==> row_of(prev.update(i, new_row), oid, of) == row_of(prev, oid, of),
        has_row(prev.update(i, new_row), prev[i].id, prev[i].format),
        row_of(prev.update(i, new_row), prev[i].id, prev[i].format) == new_row,
{
    let fin = prev.update(i, new_row);
    assert(rows_unique(fin)) by {
        assert(forall|a: int, b: int| #![trigger fin[a], fin[b]] 0 <= a < b < fin.len()
            ==> fin[a].id == prev[a].id && fin[a].format == prev[a].format
                && fin[b].id == prev[b].id && fin[b].format == prev[b].format);
    }
    assert forall|oid: ImageId, of: ImageFormat|
        #[trigger] has_row(fin, oid, of) == has_row(prev, oid, of) by {
        if has_row(prev, oid, of) {
            let j = choose|j: int| #![trigger prev[j]] 0 <= j < prev.len()
                && prev[j].id == oid && prev[j].format == of;
            assert(fin[j].id == oid && fin[j].format == of);
        }
        if has_row(fin, oid, of) {
            let j = choose|j: int| #![trigger fin[j]] 0 <= j < fin.len()
                && fin[j].id == oid && fin[j].format == of;
            assert(prev[j].id == oid && prev[j].format == of);
        }
    }
    assert forall|oid: ImageId, of: ImageFormat|
        !(oid == prev[i].id && of == prev[i].format) && has_row(prev, oid, of) implies
        #[trigger] row_of(fin, oid, of) == row_of(prev, oid, of) by {
        let j = choose|j: int| #![trigger prev[j]] 0 <= j < prev.len()
            && prev[j].id == oid && prev[j].format == of;
        assert(j != i);
        assert(fin[j] == prev[j]);
        lemma_row_of_at(fin, oid, of, j);
        lemma_row_of_at(prev, oid, of, j);
    }
    lemma_row_of_at(fin, prev[i].id, prev[i].format, i);
}

/// Every element of a filtered sequence is an element of the sequence.
pub proof fn lemma_filter_subset(rows: Seq<ImageRow>, pred: spec_fn(ImageRow) -> bool)
    ensures
        forall|a: int| 0 <= a < rows.filter(pred).len()
            ==> exists|j: int| #![trigger rows[j]] 0 <= j < rows.len()
                && #[trigger] rows.filter(pred)[a] == rows[j],
    decreases rows.len(),
{
    reveal(Seq::filter);
    if rows.len() > 0 {
        let prefix = rows.drop_last();
        lemma_filter_subset(prefix, pred);
        assert forall|a: int| 0 <= a < rows.filter(pred).len() implies
            exists|j: int| #![trigger rows[j]] 0 <= j < rows.len()
                && #[trigger] rows.filter(pred)[a] == rows[j] by {
            if a < prefix.filter(pred).len() {
                assert(rows.filter(pred)[a] == prefix.filter(pred)[a]);
                let j = choose|j: int| #![trigger prefix[j]] 0 <= j < prefix.len()
                    && prefix.filter(pred)[a] == prefix[j];
                assert(rows[j] == prefix[j]);
            } else {
                assert(rows.filter(pred)[a] == rows[rows.len() - 1]);
            }
        }
    }
}

/// The expiry instant of a new derivative, from the requested and the
/// configured time to live: the smaller of the two where both exist, the one
/// that exists otherwise, and none where neither does.
pub open spec fn eol_spec(requested: Option<i64>, max: Option<i64>, now: i64) -> Option<int> {
    match (requested, max) {
        (None, None) => None,
        (None, Some(m)) => Some(now + m),
        (Some(r), None) => Some(now + r),
        (Some(r), Some(m)) => Some(now + if r > m { m } else { r }),
    }
}

/// The machine limit on the expiry computation: each configured or requested
/// time to live keeps `now + ttl` within `i64`.
pub open spec fn eol_inputs_ok(requested: Option<i64>, max: Option<i64>, now: i64) -> bool {
    &&& (requested matches Some(r) ==> i64::MIN <= now + r <= i64::MAX)
    &&& (max matches Some(m) ==> i64::MIN <= now + m <= i64::MAX)
}

/// The derived location of a derivative's bytes on disk:
/// `root / hex32(identifier) . extension(format)`.
#[derive(Debug)]
pub struct ImagePath(pub String);

impl View for ImagePath {
    type V = Seq<char>;

    open spec fn view(&self) -> Seq<char> {
        self.0@
    }
}

/// The one place that concatenates the store root, an identifier and a
/// format into a filesystem path.
pub open spec fn path_spec(folder: Seq<char>, id: u128, format: ImageFormat) -> Seq<char> {
    folder + "/"@ + hex32_of(id) + "."@ + format.tag_spec()
}

impl ImagePath {
    pub fn new(image_folder: &str, image_identifier: &ImageId, image_format: ImageFormat) -> (r: ImagePath)
        ensures
            r@ == path_spec(image_folder@, image_identifier.id, image_format),
    {
        let mut s = String::from_str(image_folder);
        s.append("/");
        let hex = image_identifier.to_hex();
        s.append(hex.as_str());
        s.append(".");
        s.append(image_format.extension());
        ImagePath(s)
    }

    pub fn as_str(&self) -> (r: &str)
        ensures
            r@ == self@,
    {
        self.0.as_str()
    }
}

/// The metadata store together with the object store it governs: the state
/// of the image lifecycle engine.
#[derive(Debug)]
pub struct Database {
    pub rows: Vec<ImageRow>,
    pub store: ObjectStore,
    pub image_ttl_allowed: Option<i64>,
}

impl Database {
    /// Well-formedness: unique keys on both sides, and a file exists for a
    /// derivative exactly when its row is marked computed.
    pub open spec fn wf(&self) -> bool {
        &&& rows_unique(self.rows@)
        &&& files_unique(self.store.files@)
        &&& forall|i: int| #![trigger self.rows@[i]] 0 <= i < self.rows@.len() && self.rows@[i].computed
            ==> has_file(self.store.files@, self.rows@[i].id, self.rows@[i].format)
        &&& forall|i: int| #![trigger self.store.files@[i]] 0 <= i < self.store.files@.len()
            ==> has_row(self.rows@, self.store.files@[i].id, self.store.files@[i].format)
                && row_of(self.rows@, self.store.files@[i].id, self.store.files@[i].format).computed
    }

    /// A fresh engine over an empty store, rooted at the configured
    /// directory and carrying the configured cap on time to live.
    pub fn new(config: &Config) -> (r: Database)
        ensures
            r.wf(),
            r.rows@.len() == 0,
            r.store.files@.len() == 0,
            r.store.image_location@ == config.image_path@,
            r.image_ttl_allowed == config.image_ttl,
    {
        Database {
            rows: Vec::new(),
            store: ObjectStore::new(config.image_path.clone()),
            image_ttl_allowed: config.image_ttl,
        }
    }

    /// The expiry instant for a new derivative: the requested time to live,
    /// capped by the configured maximum; an error (none) where neither is
    /// given.
    pub fn determine_eol(requested: Option<i64>, max: Option<i64>, now: i64) -> (r: Option<i64>)
        requires
            eol_inputs_ok(requested, max, now),
        ensures
            r is Some <==> eol_spec(requested, max, now) is Some,
            r is Some ==> r->0 == eol_spec(requested, max, now)->0,
    {
        match (requested, max) {
            (None, None) => None,
            (None, Some(m)) => Some(now + m),
            (Some(r), None) => Some(now + r),
            (Some(r), Some(m)) => Some(now + if r > m { m } else { r }),
        }
    }

    /// The index of the row with the key `(id, format)`, if any.
    fn find_row(&self, id: &ImageId, format: ImageFormat) -> (r: Option<usize>)
        ensures
            r is Some ==> 0 <= r->0 < self.rows@.len()
                && self.rows@[r->0 as int].id == *id
                && self.rows@[r->0 as int].format == format,
            r is None ==> !has_row(self.rows@, *id, format),
    {
        let mut i: usize = 0;
        while i < self.rows.len()
            invariant
                0 <= i <= self.rows@.len(),
                forall|j: int| #![trigger self.rows@[j]] 0 <= j < i
                    ==> !(self.rows@[j].id == *id && self.rows@[j].format == format),
            decreases self.rows@.len() - i,
        {
            if self.rows[i].id == *id && self.rows[i].format == format {
                return Some(i);
            }
            i = i + 1;
        }
        None
    }

    /// Whether any row, in any format, carries this identifier. Used by the
    /// ingest pipeline to avoid minting a colliding identifier.
    pub fn identifier_exists(&self, image_identifier: &ImageId) -> (r: bool)
        ensures
            r == has_id(self.rows@, *image_identifier),
    {
        let mut i: usize = 0;
        while i < self.rows.len()
            invariant
                0 <= i <= self.rows@.len(),
                forall|j: int| #![trigger self.rows@[j]] 0 <= j < i
                    ==> self.rows@[j].id != *image_identifier,
            decreases self.rows@.len() - i,
        {
            if self.rows[i].id == *image_identifier {
                proof {
                    assert(self.rows@[i as int].id == *image_identifier);
                }
                return true;
            }
            i = i + 1;
        }
        false
    }

    /// All rows of an identifier, in store order: empty is a valid result.
    pub fn lookup(&self, image_identifier: &ImageId) -> (r: Vec<ImageRow>)
        ensures
            r@ == self.rows@.filter(id_pred(*image_identifier)),
    {
        let mut out: Vec<ImageRow> = Vec::new();
        let mut i: usize = 0;
        proof {
            assert(self.rows@.take(0) =~= Seq::<ImageRow>::empty());
            reveal(Seq::filter);
        }
        while i < self.rows.len()
            invariant
                0 <= i <= self.rows@.len(),
                out@ == self.rows@.take(i as int).filter(id_pred(*image_identifier)),
            decreases self.rows@.len() - i,
        {
            let ghost prefix = self.rows@.take(i as int);
            if self.rows[i].id == *image_identifier {
                out.push(self.rows[i]);
            }
            proof {
                assert(self.rows@.take(i + 1) =~= prefix.push(self.rows@[i as int]));
                lemma_filter_push(prefix, self.rows@[i as int], id_pred(*image_identifier));
            }
            i = i + 1;
        }
        proof {
            assert(self.rows@.take(self.rows@.len() as int) =~= self.rows@);
        }
        out
    }

    /// Whether a read of this identifier should trigger an opportunistic
    /// sweep: some row of the identifier has expired.
    pub fn needs_sweep(&self, image_identifier: &ImageId, now: i64) -> (r: bool)
        ensures
            r == has_expired_row(self.rows@, *image_identifier, now),
    {
        let mut i: usize = 0;
        while i < self.rows.len()
            invariant
                0 <= i <= self.rows@.len(),
                forall|j: int| #![trigger self.rows@[j]] 0 <= j < i
                    ==> !(self.rows@[j].id == *image_identifier && self.rows@[j].expires_at < now),
            decreases self.rows@.len() - i,
        {
            if self.rows[i].id == *image_identifier && self.rows[i].expires_at < now {
                proof {
                    assert(self.rows@[i as int].id == *image_identifier);
                }
                return true;
            }
            i = i + 1;
        }
        false
    }

    /// Records the intention to store a derivative: inserts its row with
    /// `computed` false. Fails with `Conflict` exactly when the key is taken.
    pub fn insert(&mut self, id: ImageId, format: ImageFormat, expires_at: i64) -> (r: Result<(), InsertError>)
        requires
            old(self).wf(),
        ensures
            final(self).wf(),
            final(self).store == old(self).store,
            final(self).image_ttl_allowed == old(self).image_ttl_allowed,
            r is Err <==> has_row(old(self).rows@, id, format),
            r is Err ==> final(self).rows@ == old(self).rows@,
            r is Ok ==> final(self).rows@ == old(self).rows@.push(
                ImageRow { id, format, computed: false, expires_at }),
    {
        match self.find_row(&id, format) {
            Some(i) => {
                proof {
                    assert(self.rows@[i as int].id == id);
                }
                Err(InsertError::Conflict)
            },
            None => {
                let row = ImageRow { id, format, computed: false, expires_at };
                self.rows.push(row);
                proof {
                    let fin = self.rows@;
                    let prev = old(self).rows@;
                    assert(forall|a: int| 0 <= a < prev.len() ==> #[trigger] fin[a] == prev[a]);
                    assert(rows_unique(fin)) by {
                        assert forall|a: int, b: int| #![trigger fin[a], fin[b]] 0 <= a < b < fin.len() implies
                            !(fin[a].id == fin[b].id && fin[a].format == fin[b].format) by {
                            if b == fin.len() - 1 {
                                assert(fin[a] == prev[a]);
                            }
                        }
                    }
                    assert forall|i: int| #![trigger self.store.files@[i]] 0 <= i < self.store.files@.len() implies
                        has_row(fin, self.store.files@[i].id, self.store.files@[i].format)
                        && row_of(fin, self.store.files@[i].id, self.store.files@[i].format).computed by {
                        let fid = self.store.files@[i].id;
                        let ff = self.store.files@[i].format;
                        let j = choose|j: int| #![trigger prev[j]] 0 <= j < prev.len()
                            && prev[j].id == fid && prev[j].format == ff;
                        lemma_row_of_at(fin, fid, ff, j);
                    }
                }
                Ok(())
            },
        }
    }

    /// Flips the row's `computed` flag to true; a missing row is left alone.
    /// The store around the rows is untouched.
    fn set_computed(&mut self, id: &ImageId, format: ImageFormat)
        requires
            rows_unique(old(self).rows@),
        ensures
            rows_unique(final(self).rows@),
            final(self).store == old(self).store,
            final(self).image_ttl_allowed == old(self).image_ttl_allowed,
            !has_row(old(self).rows@, *id, format) ==> final(self).rows@ == old(self).rows@,
            has_row(old(self).rows@, *id, format) ==> exists|i: int|
                #![trigger old(self).rows@[i]]
                0 <= i < old(self).rows@.len()
                && old(self).rows@[i].id == *id && old(self).rows@[i].format == format
                && final(self).rows@ == old(self).rows@.update(i, (ImageRow {
                    id: *id,
                    format,
                    computed: true,
                    expires_at: old(self).rows@[i].expires_at,
                })),
            forall|oid: ImageId, of: ImageFormat|
                #[trigger] has_row(final(self).rows@, oid, of) == has_row(old(self).rows@, oid, of),
            has_row(old(self).rows@, *id, format) ==> row_of(final(self).rows@, *id, format) == (ImageRow {
                id: *id,
                format,
                computed: true,
                expires_at: row_of(old(self).rows@, *id, format).expires_at,
            }),
            forall|oid: ImageId, of: ImageFormat|
                #![trigger row_of(final(self).rows@, oid, of)]
                !(oid == *id && of == format) && has_row(old(self).rows@, oid, of)
                    ==> row_of(final(self).rows@, oid, of) == row_of(old(self).rows@, oid, of),
    {
        match self.find_row(id, format) {
            Some(i) => {
                let expires_at = self.rows[i].expires_at;
                self.rows[i] = ImageRow { id: *id, format, computed: true, expires_at };
                proof {
                    let prev = old(self).rows@;
                    lemma_rows_update_frame(prev, i as int, ImageRow { id: *id, format, computed: true, expires_at });
                    lemma_row_of_at(prev, *id, format, i as int);
                    assert(self.rows@ =~= prev.update(i as int, ImageRow { id: *id, format, computed: true, expires_at }));
                }
            },
            None => {
            },
        }
    }

    /// Marks a derivative's bytes as durable. Idempotent; a missing row is
    /// a no-op. A row may be marked only once its file is in the store, so
    /// the engine stays well-formed.
    pub fn mark_computed(&mut self, id: &ImageId, format: ImageFormat)
        requires
            old(self).wf(),
            has_row(old(self).rows@, *id, format) ==> has_file(old(self).store.files@, *id, format),
        ensures
            final(self).wf(),
            final(self).store == old(self).store,
            final(self).image_ttl_allowed == old(self).image_ttl_allowed,
            forall|oid: ImageId, of: ImageFormat|
                #[trigger] has_row(final(self).rows@, oid, of) == has_row(old(self).rows@, oid, of),
            has_row(old(self).rows@, *id, format) ==> row_of(final(self).rows@, *id, format) == (ImageRow {
                id: *id,
                format,
                computed: true,
                expires_at: row_of(old(self).rows@, *id, format).expires_at,
            }),
            forall|oid: ImageId, of: ImageFormat|
                #![trigger row_of(final(self).rows@, oid, of)]
                !(oid == *id && of == format) && has_row(old(self).rows@, oid, of)
                    ==> row_of(final(self).rows@, oid, of) == row_of(old(self).rows@, oid, of),
    {
        self.set_computed(id, format);
        proof {
            let prev = old(self).rows@;
            let fin = self.rows@;
            let files = self.store.files@;
            assert forall|i: int| #![trigger fin[i]] 0 <= i < fin.len() && fin[i].computed implies
                has_file(files, fin[i].id, fin[i].format) by {
                if has_row(prev, *id, format) {
                    let k = choose|k: int| #![trigger prev[k]] 0 <= k < prev.len()
                        && prev[k].id == *id && prev[k].format == format
                        && fin == prev.update(k, (ImageRow {
                            id: *id,
                            format,
                            computed: true,
                            expires_at: prev[k].expires_at,
                        }));
                    if i != k {
                        assert(fin[i] == prev[i]);
                    }
                } else {
                    assert(fin[i] == prev[i]);
                }
            }
            assert forall|i: int| #![trigger files[i]] 0 <= i < files.len() implies
                has_row(fin, files[i].id, files[i].format)
                && row_of(fin, files[i].id, files[i].format).computed by {
                let fid = files[i].id;
                let ff = files[i].format;
                assert(has_row(prev, fid, ff) && row_of(prev, fid, ff).computed);
                if fid == *id && ff == format {
                } else {
                    assert(row_of(fin, fid, ff) == row_of(prev, fid, ff));
                }
            }
        }
    }

    /// Atomically deletes and returns the keys of all rows that have both
    /// expired and been computed. The object store is untouched here: the
    /// sweeper removes the backing files and restores well-formedness.
    pub fn delete_expired(&mut self, now: i64) -> (r: Vec<(ImageId, ImageFormat)>)
        requires
            old(self).wf(),
        ensures
            rows_unique(final(self).rows@),
            final(self).store == old(self).store,
            final(self).image_ttl_allowed == old(self).image_ttl_allowed,
            final(self).rows@ == old(self).rows@.filter(keep_pred(now)),
            r@ == old(self).rows@.filter(gone_pred(now)).map_values(row_key()),
    {
        let ghost prev = self.rows@;
        let mut kept: Vec<ImageRow> = Vec::new();
        let mut removed: Vec<(ImageId, ImageFormat)> = Vec::new();
        let mut i: usize = 0;
        proof {
            assert(prev.take(0) =~= Seq::<ImageRow>::empty());
            reveal(Seq::filter);
        }
        while i < self.rows.len()
            invariant
                self.rows@ == prev,
                rows_unique(prev),
                0 <= i <= prev.len(),
                kept@ == prev.take(i as int).filter(keep_pred(now)),
                removed@ == prev.take(i as int).filter(gone_pred(now)).map_values(row_key()),
            decreases prev.len() - i,
        {
            let ghost prefix = prev.take(i as int);
            let row = self.rows[i];
            if row.expires_at < now && row.computed {
                removed.push((row.id, row.format));
            } else {
                kept.push(row);
            }
            proof {
                assert(prev.take(i + 1) =~= prefix.push(prev[i as int]));
                lemma_filter_push(prefix, prev[i as int], keep_pred(now));
                lemma_filter_push(prefix, prev[i as int], gone_pred(now));
                assert(prefix.push(prev[i as int]).filter(gone_pred(now)).map_values(row_key())
                    =~= if gone_pred(now)(prev[i as int]) {
                        prefix.filter(gone_pred(now)).map_values(row_key()).push(row_key()(prev[i as int]))
                    } else {
                        prefix.filter(gone_pred(now)).map_values(row_key())
                    });
            }
            i = i + 1;
        }
        proof {
            assert(prev.take(prev.len() as int) =~= prev);
            lemma_filter_subset(prev, keep_pred(now));
            assert(rows_unique(kept@)) by {
                assert forall|a: int, b: int| #![trigger kept@[a], kept@[b]] 0 <= a < b < kept@.len() implies
                    !(kept@[a].id == kept@[b].id && kept@[a].format == kept@[b].format) by {
                    lemma_filter_distinct_indexes(prev, keep_pred(now), a, b);
                }
            }
        }
        self.rows = kept;
        removed
    }

    /// The sweep itself: deletes every expired, computed row and removes
    /// each one's backing file, leaving the engine well-formed. Rows that
    /// never became computed are left in place — only durable derivatives
    /// are swept.
    pub fn clean_expired(&mut self, now: i64)
        requires
            old(self).wf(),
        ensures
            final(self).wf(),
            final(self).image_ttl_allowed == old(self).image_ttl_allowed,
            final(self).store.image_location == old(self).store.image_location,
            final(self).rows@ == old(self).rows@.filter(keep_pred(now)),
            forall|oid: ImageId, of: ImageFormat|
                #[trigger] has_file(final(self).store.files@, oid, of)
                    == (has_file(old(self).store.files@, oid, of)
                        && !expired_computed(old(self).rows@, oid, of, now)),
            forall|oid: ImageId, of: ImageFormat|
                #![trigger file_bytes(final(self).store.files@, oid, of)]
                has_file(final(self).store.files@, oid, of)
                    ==> file_bytes(final(self).store.files@, oid, of)
                        == file_bytes(old(self).store.files@, oid, of),
    {
        let ghost prev_rows = old(self).rows@;
        let ghost prev_files = old(self).store.files@;
        let removed = self.delete_expired(now);
        proof {
            lemma_removed_keys(prev_rows, now);
        }
        let mut k: usize = 0;
        while k < removed.len()
            invariant
                removed@ == prev_rows.filter(gone_pred(now)).map_values(row_key()),
                forall|oid: ImageId, of: ImageFormat|
                    #[trigger] keys_contain(removed@, oid, of)
                        == expired_computed(prev_rows, oid, of, now),
                0 <= k <= removed@.len(),
                self.store.wf(),
                self.rows@ == prev_rows.filter(keep_pred(now)),
                rows_unique(self.rows@),
                self.image_ttl_allowed == old(self).image_ttl_allowed,
                self.store.image_location == old(self).store.image_location,
                forall|oid: ImageId, of: ImageFormat|
                    #[trigger] has_file(self.store.files@, oid, of)
                        == (has_file(prev_files, oid, of)
                            && !keys_contain(removed@.take(k as int), oid, of)),
                forall|oid: ImageId, of: ImageFormat|
                    #![trigger file_bytes(self.store.files@, oid, of)]
                    has_file(self.store.files@, oid, of)
                        ==> file_bytes(self.store.files@, oid, of) == file_bytes(prev_files, oid, of),
            decreases removed@.len() - k,
        {
            let ghost mid_files = self.store.files@;
            let (rid, rformat) = removed[k];
            let _present = self.store.remove(&rid, rformat);
            proof {
                let cur = self.store.files@;
                assert(removed@[k as int] == (rid, rformat));
                assert forall|oid: ImageId, of: ImageFormat|
                    #[trigger] has_file(cur, oid, of)
                        == (has_file(prev_files, oid, of)
                            && !keys_contain(removed@.take(k + 1), oid, of)) by {
                    lemma_keys_take_push(removed@, k as int, oid, of);
                    if oid == rid && of == rformat {
                        assert(keys_contain(removed@.take(k + 1), oid, of)) by {
                            assert(removed@.take(k + 1)[k as int] == (oid, of));
                        }
                    } else {
                        assert(has_file(cur, oid, of) == has_file(mid_files, oid, of));
                    }
                }
            }
            k = k + 1;
        }
        proof {
            assert(removed@.take(removed@.len() as int) =~= removed@);
            let fin_rows = self.rows@;
            let fin_files = self.store.files@;
            // A kept, computed row keeps its file; every file's row is kept
            // and computed: the engine is well-formed again.
            lemma_filter_subset(prev_rows, keep_pred(now));
            assert forall|i: int| #![trigger fin_rows[i]] 0 <= i < fin_rows.len() && fin_rows[i].computed implies
                has_file(fin_files, fin_rows[i].id, fin_rows[i].format) by {
                let j = choose|j: int| #![trigger prev_rows[j]] 0 <= j < prev_rows.len()
                    && fin_rows[i] == prev_rows[j];
                prev_rows.lemma_filter_pred(keep_pred(now), i);
                assert(has_file(prev_files, fin_rows[i].id, fin_rows[i].format));
                assert(!expired_computed(prev_rows, fin_rows[i].id, fin_rows[i].format, now)) by {
                    lemma_row_of_at(prev_rows, fin_rows[i].id, fin_rows[i].format, j);
                }
            }
            assert forall|i: int| #![trigger fin_files[i]] 0 <= i < fin_files.len() implies
                has_row(fin_rows, fin_files[i].id, fin_files[i].format)
                && row_of(fin_rows, fin_files[i].id, fin_files[i].format).computed by {
                let fid = fin_files[i].id;
                let ff = fin_files[i].format;
                assert(has_file(fin_files, fid, ff)) by {
                    crate::object_store::lemma_file_bytes_at(fin_files, fid, ff, i);
                }
                assert(has_file(prev_files, fid, ff) && !expired_computed(prev_rows, fid, ff, now));
                let j = choose|j: int| #![trigger prev_rows[j]] 0 <= j < prev_rows.len()
                    && prev_rows[j].id == fid && prev_rows[j].format == ff;
                lemma_row_of_at(prev_rows, fid, ff, j);
                assert(keep_pred(now)(prev_rows[j]));
                prev_rows.lemma_filter_contains(keep_pred(now), j);
                let a = choose|a: int| 0 <= a < fin_rows.len() && fin_rows[a] == prev_rows[j];
                lemma_row_of_at(fin_rows, fid, ff, a);
            }
        }
    }
    /// Resolves a read against a list of rows fetched for one identifier,
    /// without touching any store: the decision core that
    /// `get_image_location` applies to this engine's own rows, exposed for
    /// callers that keep their rows elsewhere.
    pub fn resolve_image_rows(
        rows: &Vec<ImageRow>,
        image_format: ImageFormat,
        max_time: i64,
    ) -> (r: RowResolution)
        ensures
            ({
                let live = rows@.filter(expiry_pred(max_time));
                match find_first(live, fmt_pred(image_format)) {
                    Some(row) => if row.computed {
                        r == RowResolution::Found
                    } else {
                        r == RowResolution::NotComputedYet
                    },
                    None => if live.len() == 0 {
                        r == RowResolution::NotFound
                    } else {
                        match find_first(live, computed_pred()) {
                            Some(src) => r == RowResolution::UseSource(src.format, src.expires_at),
                            None => r == RowResolution::NoComputedSource,
                        }
                    },
                }
            }),
    {
        let ghost live = rows@.filter(expiry_pred(max_time));
        let mut active: Vec<ImageRow> = Vec::new();
        let mut i: usize = 0;
        proof {
            assert(rows@.take(0) =~= Seq::<ImageRow>::empty());
            reveal(Seq::filter);
        }
        while i < rows.len()
            invariant
                0 <= i <= rows@.len(),
                active@ == rows@.take(i as int).filter(expiry_pred(max_time)),
            decreases rows@.len() - i,
        {
            let ghost prefix = rows@.take(i as int);
            let row = rows[i];
            if row.expires_at >= max_time {
                active.push(row);
            }
            proof {
                assert(rows@.take(i + 1) =~= prefix.push(rows@[i as int]));
                lemma_filter_push(prefix, rows@[i as int], expiry_pred(max_time));
            }
            i = i + 1;
        }
        proof {
            assert(rows@.take(rows@.len() as int) =~= rows@);
        }
        let mut j: usize = 0;
        while j < active.len()
            invariant
                0 <= j <= active@.len(),
                live == rows@.filter(expiry_pred(max_time)),
                active@ == live,
                forall|a: int| 0 <= a < j ==> !fmt_pred(image_format)(#[trigger] active@[a]),
            decreases active@.len() - j,
        {
            if active[j].format == image_format {
                proof {
                    lemma_find_first_at(live, fmt_pred(image_format), j as int);
                }
                if active[j].computed {
                    return RowResolution::Found;
                } else {
                    return RowResolution::NotComputedYet;
                }
            }
            j = j + 1;
        }
        proof {
            lemma_find_first_none(live, fmt_pred(image_format));
        }
        if active.len() == 0 {
            return RowResolution::NotFound;
        }
        let mut k: usize = 0;
        while k < active.len()
            invariant
                0 <= k <= active@.len(),
                live == rows@.filter(expiry_pred(max_time)),
                active@ == live,
                find_first(live, fmt_pred(image_format)) is None,
                live.len() > 0,
                forall|a: int| 0 <= a < k ==> !computed_pred()(#[trigger] active@[a]),
            decreases active@.len() - k,
        {
            if active[k].computed {
                proof {
                    lemma_find_first_at(live, computed_pred(), k as int);
                }
                return RowResolution::UseSource(active[k].format, active[k].expires_at);
            }
            k = k + 1;
        }
        proof {
            lemma_find_first_none(live, computed_pred());
        }
        RowResolution::NoComputedSource
    }

    /// Records an upload's metadata: computes the expiry from the requested
    /// and the configured time to live, mints a fresh identifier, and
    /// inserts the row with `computed` false. The encoded bytes become
    /// durable later, through `compute_image`.
    pub fn save_image(&mut self, image_format: ImageFormat, api_ttl: Option<i64>, now: i64) -> (r: Result<
        ImageId,
        SaveImageError,
    >)
        requires
            old(self).wf(),
            eol_inputs_ok(api_ttl, old(self).image_ttl_allowed, now),
        ensures
            final(self).wf(),
            final(self).store == old(self).store,
            final(self).image_ttl_allowed == old(self).image_ttl_allowed,
            r matches Err(SaveImageError::TtlNotConfigured) <==> eol_spec(
                api_ttl,
                old(self).image_ttl_allowed,
                now,
            ) is None,
            r is Err ==> final(self).rows@ == old(self).rows@,
            r is Ok ==> !has_id(old(self).rows@, r->Ok_0) && final(self).rows@ == old(self).rows@.push(
                (ImageRow {
                    id: r->Ok_0,
                    format: image_format,
                    computed: false,
                    expires_at: (eol_spec(api_ttl, old(self).image_ttl_allowed, now)->0) as i64,
                }),
            ),
    {
        let eol = match Self::determine_eol(api_ttl, self.image_ttl_allowed, now) {
            Some(e) => e,
            None => {
                return Err(SaveImageError::TtlNotConfigured);
            },
        };
        let mut attempts: usize = 0;
        while attempts < 64
            invariant
                self.wf(),
                self.rows@ == old(self).rows@,
                self.store == old(self).store,
                self.image_ttl_allowed == old(self).image_ttl_allowed,
                eol_spec(api_ttl, old(self).image_ttl_allowed, now) is Some,
                eol as int == eol_spec(api_ttl, old(self).image_ttl_allowed, now)->0,
            decreases 64 - attempts,
        {
            let id = ImageId::mint();
            if !self.identifier_exists(&id) {
                let ghost pre = self.rows@;
                match self.insert(id, image_format, eol) {
                    Ok(()) => {
                        return Ok(id);
                    },
                    Err(_) => {
                        proof {
                            // a conflicting row would carry the identifier,
                            // which the existence check just ruled out
                            let j = choose|j: int|
                                #![trigger pre[j]]
                                0 <= j < pre.len() && pre[j].id == id && pre[j].format
                                    == image_format;
                            assert(false);
                        }
                    },
                }
            }
            attempts = attempts + 1;
        }
        Err(SaveImageError::InternalServerError)
    }

    /// Persists a lazily transcoded derivative in one step: inserts its row,
    /// writes its bytes, and marks it computed. Fails with `Conflict`, and
    /// changes nothing, exactly when a row with the key already exists —
    /// the loser of a race to the same new derivative discards its work.
    pub fn save_raw_image(
        &mut self,
        data: Vec<u8>,
        image_identifier: ImageId,
        image_format: ImageFormat,
        expires_at: i64,
    ) -> (r: Result<(), InsertError>)
        requires
            old(self).wf(),
        ensures
            final(self).wf(),
            final(self).image_ttl_allowed == old(self).image_ttl_allowed,
            final(self).store.image_location == old(self).store.image_location,
            r is Err <==> has_row(old(self).rows@, image_identifier, image_format),
            r is Err ==> final(self).rows@ == old(self).rows@ && final(self).store == old(
                self,
            ).store,
            r is Ok ==> final(self).rows@ == old(self).rows@.push(
                (ImageRow {
                    id: image_identifier,
                    format: image_format,
                    computed: true,
                    expires_at,
                }),
            ),
            r is Ok ==> has_file(final(self).store.files@, image_identifier, image_format)
                && file_bytes(final(self).store.files@, image_identifier, image_format) == data@,
            forall|oid: ImageId, of: ImageFormat|
                r is Ok && !(oid == image_identifier && of == image_format)
                    ==> #[trigger] has_file(final(self).store.files@, oid, of) == has_file(
                    old(self).store.files@,
                    oid,
                    of,
                ),
            forall|oid: ImageId, of: ImageFormat|
                #![trigger file_bytes(final(self).store.files@, oid, of)]
                r is Ok && !(oid == image_identifier && of == image_format) && has_file(
                    old(self).store.files@,
                    oid,
                    of,
                ) ==> file_bytes(final(self).store.files@, oid, of) == file_bytes(
                    old(self).store.files@,
                    oid,
                    of,
                ),
    {
        match self.insert(image_identifier, image_format, expires_at) {
            Err(e) => Err(e),
            Ok(()) => {
                self.store.write(image_identifier, image_format, data);
                self.set_computed(&image_identifier, image_format);
                proof {
                    let prev = old(self).rows@;
                    let new_row = ImageRow {
                        id: image_identifier,
                        format: image_format,
                        computed: true,
                        expires_at,
                    };
                    let pushed = prev.push(
                        ImageRow {
                            id: image_identifier,
                            format: image_format,
                            computed: false,
                            expires_at,
                        },
                    );
                    assert(has_row(pushed, image_identifier, image_format)) by {
                        assert(pushed[prev.len() as int].id == image_identifier);
                    }
                    let i = choose|i: int|
                        #![trigger pushed[i]]
                        0 <= i < pushed.len() && pushed[i].id == image_identifier
                            && pushed[i].format == image_format && self.rows@ == pushed.update(
                            i,
                            (ImageRow {
                                id: image_identifier,
                                format: image_format,
                                computed: true,
                                expires_at: pushed[i].expires_at,
                            }),
                        );
                    assert(i == prev.len()) by {
                        if i < prev.len() {
                            assert(prev[i].id == image_identifier && prev[i].format
                                == image_format);
                        }
                    }
                    assert(self.rows@ =~= prev.push(new_row));
                    let fin_rows = self.rows@;
                    let fin_files = self.store.files@;
                    let prev_files = old(self).store.files@;
                    assert(forall|a: int| 0 <= a < prev.len() ==> #[trigger] fin_rows[a] == prev[a]);
                    assert(rows_unique(fin_rows)) by {
                        assert forall|a: int, b: int|
                            #![trigger fin_rows[a], fin_rows[b]]
                            0 <= a < b < fin_rows.len() implies !(fin_rows[a].id == fin_rows[b].id
                            && fin_rows[a].format == fin_rows[b].format) by {
                            if b == fin_rows.len() - 1 {
                                assert(fin_rows[a] == prev[a]);
                            }
                        }
                    }
                    assert forall|a: int|
                        #![trigger fin_rows[a]]
                        0 <= a < fin_rows.len() && fin_rows[a].computed implies has_file(
                        fin_files,
                        fin_rows[a].id,
                        fin_rows[a].format,
                    ) by {
                        if a < prev.len() {
                            assert(fin_rows[a] == prev[a]);
                            assert(has_file(prev_files, prev[a].id, prev[a].format));
                            assert(!(prev[a].id == image_identifier && prev[a].format
                                == image_format));
                        }
                    }
                    assert forall|a: int|
                        #![trigger fin_files[a]]
                        0 <= a < fin_files.len() implies has_row(
                        fin_rows,
                        fin_files[a].id,
                        fin_files[a].format,
                    ) && row_of(fin_rows, fin_files[a].id, fin_files[a].format).computed by {
                        let k_id = fin_files[a].id;
                        let k_f = fin_files[a].format;
                        crate::object_store::lemma_file_bytes_at(fin_files, k_id, k_f, a);
                        if k_id == image_identifier && k_f == image_format {
                            lemma_row_of_at(fin_rows, k_id, k_f, prev.len() as int);
                        } else {
                            assert(has_file(prev_files, k_id, k_f));
                            let j = choose|j: int|
                                #![trigger prev[j]]
                                0 <= j < prev.len() && prev[j].id == k_id && prev[j].format == k_f;
                            lemma_row_of_at(prev, k_id, k_f, j);
                            lemma_row_of_at(fin_rows, k_id, k_f, j);
                        }
                    }
                }
                Ok(())
            },
        }
    }

    /// The post-ingest worker's half of an upload: decodes the uploaded
    /// bytes, encodes them in the row's format, writes the file, and marks
    /// the row computed. On any failure the engine is left unchanged and
    /// the row stays uncomputed, to be swept once it expires.
    pub fn compute_image(
        &mut self,
        image_identifier: &ImageId,
        image_format: ImageFormat,
        data: &[u8],
    ) -> (r: Result<(), TranscoderError>)
        requires
            old(self).wf(),
        ensures
            final(self).wf(),
            final(self).image_ttl_allowed == old(self).image_ttl_allowed,
            final(self).store.image_location == old(self).store.image_location,
            r is Ok <==> has_row(old(self).rows@, *image_identifier, image_format) && decode_ok(
                data@,
            ) && encode_of(data@, image_format) is Some,
            r is Err ==> final(self).rows@ == old(self).rows@ && final(self).store == old(
                self,
            ).store,
            forall|oid: ImageId, of: ImageFormat|
                r is Ok ==> #[trigger] has_row(final(self).rows@, oid, of) == has_row(
                    old(self).rows@,
                    oid,
                    of,
                ),
            r is Ok ==> row_of(final(self).rows@, *image_identifier, image_format) == (ImageRow {
                id: *image_identifier,
                format: image_format,
                computed: true,
                expires_at: row_of(old(self).rows@, *image_identifier, image_format).expires_at,
            }),
            forall|oid: ImageId, of: ImageFormat|
                #![trigger row_of(final(self).rows@, oid, of)]
                r is Ok && !(oid == *image_identifier && of == image_format) && has_row(
                    old(self).rows@,
                    oid,
                    of,
                ) ==> row_of(final(self).rows@, oid, of) == row_of(old(self).rows@, oid, of),
            r is Ok ==> has_file(final(self).store.files@, *image_identifier, image_format)
                && file_bytes(final(self).store.files@, *image_identifier, image_format)
                == encode_of(data@, image_format)->0,
            forall|oid: ImageId, of: ImageFormat|
                r is Ok && !(oid == *image_identifier && of == image_format)
                    ==> #[trigger] has_file(final(self).store.files@, oid, of) == has_file(
                    old(self).store.files@,
                    oid,
                    of,
                ),
            forall|oid: ImageId, of: ImageFormat|
                #![trigger file_bytes(final(self).store.files@, oid, of)]
                r is Ok && !(oid == *image_identifier && of == image_format) && has_file(
                    old(self).store.files@,
                    oid,
                    of,
                ) ==> file_bytes(final(self).store.files@, oid, of) == file_bytes(
                    old(self).store.files@,
                    oid,
                    of,
                ),
    {
        let row_idx = match self.find_row(image_identifier, image_format) {
            Some(i) => i,
            None => {
                return Err(TranscoderError::NotFound);
            },
        };
        proof {
            assert(self.rows@[row_idx as int].id == *image_identifier);
        }
        let image = match decode_bytes(data) {
            Ok(d) => d,
            Err(e) => {
                return Err(TranscoderError::ImageError(e));
            },
        };
        let encoded = match image.encode(image_format) {
            Ok(b) => b,
            Err(e) => {
                return Err(TranscoderError::ImageError(e));
            },
        };
        let ghost prev = old(self).rows@;
        let ghost prev_files = old(self).store.files@;
        self.store.write(*image_identifier, image_format, encoded);
        self.set_computed(image_identifier, image_format);
        proof {
            let new_row = ImageRow {
                id: *image_identifier,
                format: image_format,
                computed: true,
                expires_at: prev[row_idx as int].expires_at,
            };
            let i = choose|i: int|
                #![trigger prev[i]]
                0 <= i < prev.len() && prev[i].id == *image_identifier && prev[i].format
                    == image_format && self.rows@ == prev.update(
                    i,
                    (ImageRow {
                        id: *image_identifier,
                        format: image_format,
                        computed: true,
                        expires_at: prev[i].expires_at,
                    }),
                );
            lemma_row_of_at(prev, *image_identifier, image_format, i);
            lemma_row_of_at(prev, *image_identifier, image_format, row_idx as int);
            lemma_rows_update_frame(
                prev,
                i,
                ImageRow {
                    id: *image_identifier,
                    format: image_format,
                    computed: true,
                    expires_at: prev[i].expires_at,
                },
            );
            let fin_rows = self.rows@;
            let fin_files = self.store.files@;
            assert forall|a: int|
                #![trigger fin_rows[a]]
                0 <= a < fin_rows.len() && fin_rows[a].computed implies has_file(
                fin_files,
                fin_rows[a].id,
                fin_rows[a].format,
            ) by {
                if a != i {
                    assert(fin_rows[a] == prev[a]);
                    assert(has_file(prev_files, prev[a].id, prev[a].format));
                    assert(!(prev[a].id == *image_identifier && prev[a].format == image_format));
                }
            }
            assert forall|a: int|
                #![trigger fin_files[a]]
                0 <= a < fin_files.len() implies has_row(
                fin_rows,
                fin_files[a].id,
                fin_files[a].format,
            ) && row_of(fin_rows, fin_files[a].id, fin_files[a].format).computed by {
                let k_id = fin_files[a].id;
                let k_f = fin_files[a].format;
                crate::object_store::lemma_file_bytes_at(fin_files, k_id, k_f, a);
                if k_id == *image_identifier && k_f == image_format {
                } else {
                    assert(has_file(prev_files, k_id, k_f));
                    let j = choose|j: int|
                        #![trigger prev[j]]
                        0 <= j < prev.len() && prev[j].id == k_id && prev[j].format == k_f;
                    lemma_row_of_at(prev, k_id, k_f, j);
                    assert(row_of(fin_rows, k_id, k_f) == row_of(prev, k_id, k_f));
                }
            }
        }
        Ok(())
    }

    /// Resolves a read of `(identifier, format)` against the live rows at
    /// `max_time`, in the order the store returns them:
    /// a live row in the requested format serves its file (once computed);
    /// otherwise the first live, computed row becomes the transcode source;
    /// no live row at all is `NotFound`.
    pub fn get_image_location(
        &self,
        file_identifier: &ImageId,
        image_format: ImageFormat,
        max_time: i64,
    ) -> (r: Result<ImagePath, GetImageError>)
        requires
            self.wf(),
        ensures
            match find_first(
                live_rows(self.rows@, *file_identifier, max_time),
                fmt_pred(image_format),
            ) {
                Some(row) => if row.computed {
                    r is Ok && r->Ok_0@ == path_spec(
                        self.store.image_location@,
                        file_identifier.id,
                        image_format,
                    )
                } else {
                    r matches Err(GetImageError::NotComputed)
                },
                None => {
                    let live = live_rows(self.rows@, *file_identifier, max_time);
                    if live.len() == 0 {
                        r matches Err(GetImageError::NotFound)
                    } else {
                        match find_first(live, computed_pred()) {
                            Some(src) => r matches Err(GetImageError::FoundButNotInFormat(s))
                                && s.path@ == path_spec(
                                self.store.image_location@,
                                file_identifier.id,
                                src.format,
                            ) && s.format == src.format && s.expires_at == src.expires_at,
                            None => r matches Err(GetImageError::NotComputed),
                        }
                    }
                },
            },
    {
        let ghost live = live_rows(self.rows@, *file_identifier, max_time);
        let mut active: Vec<ImageRow> = Vec::new();
        let mut i: usize = 0;
        proof {
            assert(self.rows@.take(0) =~= Seq::<ImageRow>::empty());
            reveal(Seq::filter);
        }
        while i < self.rows.len()
            invariant
                0 <= i <= self.rows@.len(),
                active@ == self.rows@.take(i as int).filter(
                    live_pred(*file_identifier, max_time),
                ),
            decreases self.rows@.len() - i,
        {
            let ghost prefix = self.rows@.take(i as int);
            let row = self.rows[i];
            if row.id == *file_identifier && row.expires_at >= max_time {
                active.push(row);
            }
            proof {
                assert(self.rows@.take(i + 1) =~= prefix.push(self.rows@[i as int]));
                lemma_filter_push(prefix, self.rows@[i as int], live_pred(*file_identifier, max_time));
            }
            i = i + 1;
        }
        proof {
            assert(self.rows@.take(self.rows@.len() as int) =~= self.rows@);
            assert(active@ == live);
        }
        // a live row in the requested format?
        let mut j: usize = 0;
        while j < active.len()
            invariant
                0 <= j <= active@.len(),
                self.wf(),
                live == live_rows(self.rows@, *file_identifier, max_time),
                active@ == live,
                forall|a: int| 0 <= a < j ==> !fmt_pred(image_format)(#[trigger] active@[a]),
            decreases active@.len() - j,
        {
            if active[j].format == image_format {
                proof {
                    lemma_find_first_at(live, fmt_pred(image_format), j as int);
                }
                if active[j].computed {
                    return Ok(
                        ImagePath::new(
                            self.store.image_location.as_str(),
                            file_identifier,
                            image_format,
                        ),
                    );
                } else {
                    return Err(GetImageError::NotComputed);
                }
            }
            j = j + 1;
        }
        proof {
            lemma_find_first_none(live, fmt_pred(image_format));
        }
        if active.len() == 0 {
            return Err(GetImageError::NotFound);
        }
        // no exact match: the first live, computed row is the source
        let mut k: usize = 0;
        while k < active.len()
            invariant
                0 <= k <= active@.len(),
                self.wf(),
                live == live_rows(self.rows@, *file_identifier, max_time),
                active@ == live,
                find_first(live, fmt_pred(image_format)) is None,
                live.len() > 0,
                forall|a: int| 0 <= a < k ==> !computed_pred()(#[trigger] active@[a]),
            decreases active@.len() - k,
        {
            if active[k].computed {
                proof {
                    lemma_find_first_at(live, computed_pred(), k as int);
                }
                let src_format = active[k].format;
                let src_expires = active[k].expires_at;
                return Err(
                    GetImageError::FoundButNotInFormat(
                        SourceDerivative {
                            path: ImagePath::new(
                                self.store.image_location.as_str(),
                                file_identifier,
                                src_format,
                            ),
                            format: src_format,
                            expires_at: src_expires,
                        },
                    ),
                );
            }
            k = k + 1;
        }
        proof {
            lemma_find_first_none(live, computed_pred());
        }
        Err(GetImageError::NotComputed)
    }
}

/// The key list returned by `delete_expired` carries exactly the keys of
/// the rows that are expired and computed.
proof fn lemma_removed_keys(rows: Seq<ImageRow>, now: i64)
    requires
        rows_unique(rows),
    ensures
        forall|oid: ImageId, of: ImageFormat|
            #[trigger] keys_contain(rows.filter(gone_pred(now)).map_values(row_key()), oid, of)
                == expired_computed(rows, oid, of, now),
{
    let gone = rows.filter(gone_pred(now));
    let keys = gone.map_values(row_key());
    lemma_filter_subset(rows, gone_pred(now));
    assert forall|oid: ImageId, of: ImageFormat|
        #[trigger] keys_contain(keys, oid, of) == expired_computed(rows, oid, of, now) by {
        if keys_contain(keys, oid, of) {
            let i = choose|i: int| #![trigger keys[i]] 0 <= i < keys.len() && keys[i] == (oid, of);
            assert(keys[i] == row_key()(gone[i]));
            rows.lemma_filter_pred(gone_pred(now), i);
            let j = choose|j: int| #![trigger rows[j]] 0 <= j < rows.len() && gone[i] == rows[j];
            lemma_row_of_at(rows, oid, of, j);
        }
        if expired_computed(rows, oid, of, now) {
            let j = choose|j: int| #![trigger rows[j]] 0 <= j < rows.len()
                && rows[j].id == oid && rows[j].format == of;
            lemma_row_of_at(rows, oid, of, j);
            assert(gone_pred(now)(rows[j]));
            rows.lemma_filter_contains(gone_pred(now), j);
            let a = choose|a: int| 0 <= a < gone.len() && gone[a] == rows[j];
            assert(keys[a] == (oid, of));
        }
    }
}

/// Extending a key-list prefix by one position.
proof fn lemma_keys_take_push(keys: Seq<(ImageId, ImageFormat)>, k: int, id: ImageId, format: ImageFormat)
    requires
        0 <= k < keys.len(),
    ensures
        keys_contain(keys.take(k + 1), id, format)
            == (keys_contain(keys.take(k), id, format) || keys[k] == (id, format)),
{
    if keys_contain(keys.take(k + 1), id, format) {
        let i = choose|i: int| #![trigger keys.take(k + 1)[i]] 0 <= i < keys.take(k + 1).len()
            && keys.take(k + 1)[i] == (id, format);
        if i < k {
            assert(keys.take(k)[i] == (id, format));
        } else {
            assert(keys[k] == (id, format));
        }
    }
    if keys_contain(keys.take(k), id, format) {
        let i = choose|i: int| #![trigger keys.take(k)[i]] 0 <= i < keys.take(k).len()
            && keys.take(k)[i] == (id, format);
        assert(keys.take(k + 1)[i] == (id, format));
    }
    if keys[k] == (id, format) {
        assert(keys.take(k + 1)[k] == (id, format));
    }
}

/// Filtering preserves the uniqueness of the keys.
pub proof fn lemma_rows_filter_unique(rows: Seq<ImageRow>, pred: spec_fn(ImageRow) -> bool)
    requires
        rows_unique(rows),
    ensures
        rows_unique(rows.filter(pred)),
{
    let kept = rows.filter(pred);
    assert forall|a: int, b: int| #![trigger kept[a], kept[b]] 0 <= a < b < kept.len() implies
        !(kept[a].id == kept[b].id && kept[a].format == kept[b].format) by {
        lemma_filter_distinct_indexes(rows, pred, a, b);
    }
}

/// Two positions of a filtered sequence come from two positions of the
/// sequence; with unique keys they cannot carry the same row twice.
proof fn lemma_filter_distinct_indexes(rows: Seq<ImageRow>, pred: spec_fn(ImageRow) -> bool, a: int, b: int)
    requires
        rows_unique(rows),
        0 <= a < b < rows.filter(pred).len(),
    ensures
        !(rows.filter(pred)[a].id == rows.filter(pred)[b].id
            && rows.filter(pred)[a].format == rows.filter(pred)[b].format),
    decreases rows.len(),
{
    reveal(Seq::filter);
    if rows.len() > 0 {
        let prefix = rows.drop_last();
        assert(rows_unique(prefix)) by {
            assert(forall|x: int| 0 <= x < prefix.len() ==> #[trigger] prefix[x] == rows[x]);
        }
        if pred(rows.last()) {
            if b < rows.filter(pred).len() - 1 {
                assert(rows.filter(pred)[a] == prefix.filter(pred)[a]);
                assert(rows.filter(pred)[b] == prefix.filter(pred)[b]);
                lemma_filter_distinct_indexes(prefix, pred, a, b);
            } else {
                // b is the pushed last row; a comes from the prefix
                assert(rows.filter(pred)[b] == rows.last());
                assert(rows.filter(pred)[a] == prefix.filter(pred)[a]);
                lemma_filter_subset(prefix, pred);
                let j = choose|j: int| #![trigger prefix[j]] 0 <= j < prefix.len()
                    && prefix.filter(pred)[a] == prefix[j];
                assert(rows[j] == prefix[j]);
                assert(!(rows[j].id == rows.last().id && rows[j].format == rows.last().format));
            }
        } else {
            lemma_filter_distinct_indexes(prefix, pred, a, b);
        }
    }
}

} // verus!
