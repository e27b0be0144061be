pub mod child;
pub mod common;
pub mod root;

use vstd::prelude::*;

pub use child::{Child, ChildPayload, IndexRow, InteriorIndexPayload, LeafPayload, Row, TableRow};
pub use common::{BTreePageHeaderFormat, InteriorTablePayload};
pub use root::{
    spec_db_header, spec_insert_all, spec_root_walk, spec_schema_type, DBFileInfo, DBHeader, Root,
    RootPage, RootPayload, SchemaMap, SchemaType, SchemaView, SqlSchema,
};

use crate::btree::child::{index_views, leaf_views, InteriorIndexView, LeafView};
use crate::record_type::{
    f64_eq, f64_lt, float_eq, float_lt, spec_into_float_bits, spec_into_string, spec_into_u64,
    spec_is_int, RecordDataType, RecordValue,
};

verus! {

// -------------------------------------------------------------------------------
//                          SEARCH KEYS
// -------------------------------------------------------------------------------

/// A key that a b-tree search compares: an integer, text (compared as its
/// UTF-8 bytes, as `str` orders), or the bits of a double (compared as
/// doubles compare).
#[derive(Debug)]
pub enum IndexKey {
    Int(u64),
    Text(Vec<u8>),
    Float(u64),
}

pub enum IndexKeyView {
    Int(u64),
    Text(Seq<u8>),
    Float(u64),
}

impl View for IndexKey {
    type V = IndexKeyView;

    open spec fn view(&self) -> IndexKeyView {
        match self {
            IndexKey::Int(v) => IndexKeyView::Int(*v),
            IndexKey::Text(b) => IndexKeyView::Text(b@),
            IndexKey::Float(v) => IndexKeyView::Float(*v),
        }
    }
}

/// Lexicographic order on byte strings (a proper prefix comes first).
pub open spec fn bytes_lt(a: Seq<u8>, b: Seq<u8>) -> bool
    decreases a.len(),
{
    if a.len() == 0 {
        b.len() > 0
    } else if b.len() == 0 {
        false
    } else if a[0] != b[0] {
        a[0] < b[0]
    } else {
        bytes_lt(a.drop_first(), b.drop_first())
    }
}

/// `a < b`, for keys of the same kind.
pub open spec fn key_lt(a: IndexKeyView, b: IndexKeyView) -> bool {
    match (a, b) {
        (IndexKeyView::Int(x), IndexKeyView::Int(y)) => x < y,
        (IndexKeyView::Text(x), IndexKeyView::Text(y)) => bytes_lt(x, y),
        (IndexKeyView::Float(x), IndexKeyView::Float(y)) => f64_lt(x, y),
        _ => false,
    }
}

/// `a == b`, for keys of the same kind.
pub open spec fn key_eq(a: IndexKeyView, b: IndexKeyView) -> bool {
    match (a, b) {
        (IndexKeyView::Int(x), IndexKeyView::Int(y)) => x == y,
        (IndexKeyView::Text(x), IndexKeyView::Text(y)) => x == y,
        (IndexKeyView::Float(x), IndexKeyView::Float(y)) => f64_eq(x, y),
        _ => false,
    }
}

/// `a <= b`, for keys of the same kind.
pub open spec fn key_le(a: IndexKeyView, b: IndexKeyView) -> bool {
    key_lt(a, b) || key_eq(a, b)
}

pub open spec fn keys_view(v: Seq<IndexKey>) -> Seq<IndexKeyView> {
    v.map_values(|k: IndexKey| k@)
}

proof fn lemma_keys_push(v: Seq<IndexKey>, k: IndexKey)
    ensures
        keys_view(v.push(k)) =~= keys_view(v).push(k@),
{
    assert(keys_view(v.push(k)).len() == keys_view(v).push(k@).len());
    assert forall|i: int| 0 <= i < v.len() + 1 implies #[trigger] keys_view(v.push(k))[i] == keys_view(v).push(k@)[i] by {
        if i < v.len() {
            assert(v.push(k)[i] == v[i]);
        }
    }
}

/// Every key is below every later key.
pub open spec fn strictly_sorted(keys: Seq<IndexKeyView>) -> bool {
    forall|i: int, j: int| 0 <= i < j < keys.len() ==> key_lt(keys[i], keys[j])
}

proof fn lemma_bytes_lt_trans(a: Seq<u8>, b: Seq<u8>, c: Seq<u8>)
    requires
        bytes_lt(a, b),
        bytes_lt(b, c),
    ensures
        bytes_lt(a, c),
    decreases a.len(),
{
    if a.len() > 0 && b.len() > 0 && c.len() > 0 && a[0] == b[0] && b[0] == c[0] {
        lemma_bytes_lt_trans(a.drop_first(), b.drop_first(), c.drop_first());
    }
}

proof fn lemma_bytes_lt_irrefl(a: Seq<u8>)
    ensures
        !bytes_lt(a, a),
    decreases a.len(),
{
    if a.len() > 0 {
        lemma_bytes_lt_irrefl(a.drop_first());
    }
}

proof fn lemma_float_order(a: u64, b: u64, c: u64)
    ensures
        f64_lt(a, b) && f64_lt(b, c) ==> f64_lt(a, c),
        f64_lt(a, b) && f64_eq(b, c) ==> f64_lt(a, c),
        f64_eq(a, b) && f64_lt(b, c) ==> f64_lt(a, c),
        f64_lt(a, b) ==> !f64_eq(a, b),
{
    assert(f64_lt(a, b) && f64_lt(b, c) ==> f64_lt(a, c)) by (bit_vector);
    assert(f64_lt(a, b) && f64_eq(b, c) ==> f64_lt(a, c)) by (bit_vector);
    assert(f64_eq(a, b) && f64_lt(b, c) ==> f64_lt(a, c)) by (bit_vector);
    assert(f64_lt(a, b) ==> !f64_eq(a, b)) by (bit_vector);
}

/// The order laws that the searches rely on.
pub proof fn lemma_key_order(a: IndexKeyView, b: IndexKeyView, c: IndexKeyView)
    ensures
        key_lt(a, b) && key_lt(b, c) ==> key_lt(a, c),
        key_lt(a, b) && key_eq(b, c) ==> key_lt(a, c),
        key_eq(a, b) && key_lt(b, c) ==> key_lt(a, c),
        key_lt(a, b) ==> !key_eq(a, b),
{
    match (a, b, c) {
        (IndexKeyView::Text(x), IndexKeyView::Text(y), IndexKeyView::Text(z)) => {
            if bytes_lt(x, y) && bytes_lt(y, z) {
                lemma_bytes_lt_trans(x, y, z);
            }
            lemma_bytes_lt_irrefl(x);
        },
        (IndexKeyView::Float(x), IndexKeyView::Float(y), IndexKeyView::Float(z)) => {
            lemma_float_order(x, y, z);
        },
        _ => {},
    }
    match (a, b) {
        (IndexKeyView::Text(x), IndexKeyView::Text(y)) => {
            lemma_bytes_lt_irrefl(x);
        },
        (IndexKeyView::Float(x), IndexKeyView::Float(y)) => {
            lemma_float_order(x, y, y);
        },
        _ => {},
    }
}

/// Byte-string `<`.
pub fn bytes_less(a: &[u8], b: &[u8]) -> (r: bool)
    ensures
        r == bytes_lt(a@, b@),
{
    let mut i: usize = 0;
    assert(a@.skip(0) =~= a@ && b@.skip(0) =~= b@);
    while i < a.len() && i < b.len() && a[i] == b[i]
        invariant
            i <= a@.len(),
            i <= b@.len(),
            bytes_lt(a@, b@) == bytes_lt(a@.skip(i as int), b@.skip(i as int)),
        decreases a@.len() - i,
    {
        assert(a@.skip(i as int).drop_first() =~= a@.skip(i + 1));
        assert(b@.skip(i as int).drop_first() =~= b@.skip(i + 1));
        i = i + 1;
    }
    if i == a.len() {
        i < b.len()
    } else if i == b.len() {
        false
    } else {
        a[i] < b[i]
    }
}

/// Byte-string `==`.
pub fn bytes_equal(a: &[u8], b: &[u8]) -> (r: bool)
    ensures
        r == (a@ == b@),
{
    if a.len() != b.len() {
        return false;
    }
    let mut i: usize = 0;
    while i < a.len()
        invariant
            a@.len() == b@.len(),
            i <= a@.len(),
            forall|j: int| 0 <= j < i ==> a@[j] == b@[j],
        decreases a@.len() - i,
    {
        if a[i] != b[i] {
            return false;
        }
        i = i + 1;
    }
    assert(a@ =~= b@);
    true
}

impl IndexKey {
    /// `self < other`.
    pub fn less(&self, other: &IndexKey) -> (r: bool)
        ensures
            r == key_lt(self@, other@),
    {
        match (self, other) {
            (IndexKey::Int(x), IndexKey::Int(y)) => *x < *y,
            (IndexKey::Text(x), IndexKey::Text(y)) => bytes_less(x.as_slice(), y.as_slice()),
            (IndexKey::Float(x), IndexKey::Float(y)) => float_lt(*x, *y),
            _ => false,
        }
    }

    /// `self == other`.
    pub fn equal(&self, other: &IndexKey) -> (r: bool)
        ensures
            r == key_eq(self@, other@),
    {
        match (self, other) {
            (IndexKey::Int(x), IndexKey::Int(y)) => *x == *y,
            (IndexKey::Text(x), IndexKey::Text(y)) => bytes_equal(x.as_slice(), y.as_slice()),
            (IndexKey::Float(x), IndexKey::Float(y)) => float_eq(*x, *y),
            _ => false,
        }
    }
}

// -------------------------------------------------------------------------------
//                          BINARY SEARCHES
// -------------------------------------------------------------------------------

/// The binary search for `seek` in `keys[lo..hi]`: look at the middle key
/// (the lower middle); stop when it equals `seek`, else go on in the half
/// where `seek` would be.
pub open spec fn spec_leaf_search(keys: Seq<IndexKeyView>, seek: IndexKeyView, lo: int, hi: int) -> Option<int>
    decreases hi - lo,
{
    if lo >= hi {
        None
    } else {
        let mid = lo + (hi - 1 - lo) / 2;
        if key_eq(keys[mid], seek) {
            Some(mid)
        } else if key_lt(keys[mid], seek) {
            spec_leaf_search(keys, seek, mid + 1, hi)
        } else {
            spec_leaf_search(keys, seek, lo, mid)
        }
    }
}

/// What the search finds lies in the range searched.
pub proof fn lemma_leaf_search_bounds(keys: Seq<IndexKeyView>, seek: IndexKeyView, lo: int, hi: int)
    ensures
        spec_leaf_search(keys, seek, lo, hi) matches Some(i) ==> lo <= i < hi && key_eq(keys[i], seek),
    decreases hi - lo,
{
    if lo < hi {
        let mid = lo + (hi - 1 - lo) / 2;
        lemma_leaf_search_bounds(keys, seek, mid + 1, hi);
        lemma_leaf_search_bounds(keys, seek, lo, mid);
    }
}

/// Binary search for `seek` among `keys`: the index of a key equal to it.
/// When the keys are strictly sorted it finds one exactly when there is one.
pub fn leaf_binsearch(keys: &Vec<IndexKey>, seek: &IndexKey) -> (r: Option<usize>)
    ensures
        r matches Some(i) ==> i < keys@.len() && key_eq(keys@[i as int]@, seek@),
        r matches Some(i) ==> spec_leaf_search(keys_view(keys@), seek@, 0, keys@.len() as int) == Some(i as int),
        r is None ==> spec_leaf_search(keys_view(keys@), seek@, 0, keys@.len() as int) is None,
        strictly_sorted(keys_view(keys@)) && r is None ==> forall|j: int|
            0 <= j < keys@.len() ==> !key_eq(keys@[j]@, seek@),
{
    let ghost kv = keys_view(keys@);
    let mut lo: usize = 0;
    let mut hi: usize = keys.len();
    while lo < hi
        invariant
            kv == keys_view(keys@),
            lo <= hi <= keys@.len(),
            spec_leaf_search(kv, seek@, 0, keys@.len() as int) == spec_leaf_search(kv, seek@, lo as int, hi as int),
            strictly_sorted(kv) ==> forall|j: int|
                0 <= j < keys@.len() && !(lo <= j < hi) ==> !key_eq(kv[j], seek@),
        decreases hi - lo,
    {
        let mid = lo + (hi - 1 - lo) / 2;
        if keys[mid].equal(seek) {
            return Some(mid);
        } else if keys[mid].less(seek) {
            proof {
                if strictly_sorted(kv) {
                    assert forall|j: int| 0 <= j <= mid implies !key_eq(kv[j], seek@) by {
                        if j < mid {
                            lemma_key_order(kv[j], kv[mid as int], seek@);
                        }
                        lemma_key_order(kv[j], seek@, seek@);
                    }
                }
            }
            lo = mid + 1;
        } else {
            proof {
                if strictly_sorted(kv) {
                    assert forall|j: int| mid <= j < keys@.len() implies !key_eq(kv[j], seek@) by {
                        if j > mid {
                            lemma_key_order(kv[mid as int], kv[j], seek@);
                        }
                    }
                }
            }
            hi = mid;
        }
    }
    proof {
        if strictly_sorted(kv) {
            assert forall|j: int| 0 <= j < keys@.len() implies !key_eq(keys@[j]@, seek@) by {
                assert(kv[j] == keys@[j]@);
                assert(!(lo <= j < hi));
            }
        }
    }
    None
}

/// The index of the first key not below `seek` (`seek <= key`), the number
/// of keys when there is none.
pub open spec fn first_not_below(keys: Seq<IndexKeyView>, seek: IndexKeyView) -> int
    decreases keys.len(),
{
    if keys.len() == 0 {
        0
    } else if key_le(seek, keys[0]) {
        0
    } else {
        1 + first_not_below(keys.drop_first(), seek)
    }
}

proof fn lemma_first_not_below(keys: Seq<IndexKeyView>, seek: IndexKeyView, i: int)
    requires
        0 <= i <= keys.len(),
        forall|j: int| 0 <= j < i ==> !key_le(seek, keys[j]),
        i < keys.len() ==> key_le(seek, keys[i]),
    ensures
        first_not_below(keys, seek) == i,
    decreases i,
{
    if i > 0 {
        lemma_first_not_below(keys.drop_first(), seek, i - 1);
    }
}

/// The lower-bound search over `keys[lo..hi]`: look at the middle key (the
/// upper middle); keep the left half when `seek` is not above it, else the
/// right half.
pub open spec fn spec_lower_bound(keys: Seq<IndexKeyView>, seek: IndexKeyView, lo: int, hi: int) -> int
    decreases hi - lo,
{
    if lo >= hi {
        lo
    } else {
        let mid = lo + (hi - lo) / 2;
        if key_le(seek, keys[mid]) {
            spec_lower_bound(keys, seek, lo, mid)
        } else {
            spec_lower_bound(keys, seek, mid + 1, hi)
        }
    }
}

/// Binary search for the first key not below `seek`: the number of keys
/// when every key is below it. Exact when the keys are strictly sorted.
pub fn lower_bound(keys: &Vec<IndexKey>, seek: &IndexKey) -> (r: usize)
    ensures
        r <= keys@.len(),
        r == spec_lower_bound(keys_view(keys@), seek@, 0, keys@.len() as int),
        strictly_sorted(keys_view(keys@)) ==> r == first_not_below(keys_view(keys@), seek@),
{
    let ghost kv = keys_view(keys@);
    let mut lo: usize = 0;
    let mut hi: usize = keys.len();
    while lo < hi
        invariant
            kv == keys_view(keys@),
            lo <= hi <= keys@.len(),
            spec_lower_bound(kv, seek@, 0, keys@.len() as int) == spec_lower_bound(kv, seek@, lo as int, hi as int),
            strictly_sorted(kv) ==> forall|j: int| 0 <= j < lo ==> !key_le(seek@, kv[j]),
            strictly_sorted(kv) ==> forall|j: int| hi <= j < keys@.len() ==> key_le(seek@, kv[j]),
        decreases hi - lo,
    {
        let mid = lo + (hi - lo) / 2;
        if seek.less(&keys[mid]) || seek.equal(&keys[mid]) {
            proof {
                if strictly_sorted(kv) {
                    assert forall|j: int| mid <= j < keys@.len() implies key_le(seek@, kv[j]) by {
                        if j > mid {
                            lemma_key_order(seek@, kv[mid as int], kv[j]);
                        }
                    }
                }
            }
            hi = mid;
        } else {
            proof {
                if strictly_sorted(kv) {
                    assert forall|j: int| 0 <= j <= mid implies !key_le(seek@, kv[j]) by {
                        if j < mid {
                            lemma_key_order(seek@, kv[j], kv[mid as int]);
                        }
                    }
                }
            }
            lo = mid + 1;
        }
    }
    proof {
        if strictly_sorted(kv) {
            lemma_first_not_below(kv, seek@, lo as int);
        }
    }
    lo
}

// -------------------------------------------------------------------------------
//                          SEARCHES OVER PAGE ENTRIES
// -------------------------------------------------------------------------------

/// The child that the `r`-th entry of an interior page leads to: its left
/// child, the last entry's right child past the end, 0 for no entries.
pub open spec fn pick_child(entries: Seq<InteriorTablePayload>, r: int) -> u32 {
    if entries.len() == 0 {
        0
    } else if r < entries.len() {
        entries[r].leftptr
    } else {
        entries.last().rightptr
    }
}

/// The keys (rowids) of the entries of an interior table page.
pub open spec fn table_keys(entries: Seq<InteriorTablePayload>) -> Seq<IndexKeyView> {
    Seq::new(entries.len(), |i: int| IndexKeyView::Int(entries[i].key))
}

/// The page where the row with rowid `seek` might be, from the entries of
/// an interior table page: the left child of the first entry whose key is
/// not below `seek`, the rightmost child when every key is below it, and 0
/// when there are no entries.
pub fn interior_binsearch(payload: &Vec<InteriorTablePayload>, seek: u64) -> (r: u32)
    ensures
        r == pick_child(payload@, spec_lower_bound(table_keys(payload@), IndexKeyView::Int(seek), 0, payload@.len() as int)),
        strictly_sorted(table_keys(payload@)) ==> r == pick_child(payload@, first_not_below(table_keys(payload@), IndexKeyView::Int(seek))),
{
    let mut keys: Vec<IndexKey> = Vec::new();
    let mut i: usize = 0;
    while i < payload.len()
        invariant
            i <= payload@.len(),
            keys_view(keys@) =~= table_keys(payload@).take(i as int),
        decreases payload@.len() - i,
    {
        let ghost prev = keys@;
        let k = IndexKey::Int(payload[i].key);
        keys.push(k);
        proof {
            lemma_keys_push(prev, k);
            assert(table_keys(payload@).take(i + 1) =~= table_keys(payload@).take(i as int).push(table_keys(payload@)[i as int]));
        }
        i = i + 1;
    }
    assert(table_keys(payload@).take(i as int) =~= table_keys(payload@));
    let seek_key = IndexKey::Int(seek);
    let pos = lower_bound(&keys, &seek_key);
    if payload.len() == 0 {
        0
    } else if pos < payload.len() {
        payload[pos].leftptr
    } else {
        payload[payload.len() - 1].rightptr
    }
}

/// The key by which a value is searched for: an integer as `u64`, text as
/// its UTF-8 bytes, a double as its bits; other values are not searched
/// for.
pub open spec fn spec_seek_key(v: RecordValue) -> Option<IndexKeyView> {
    match v {
        RecordValue::Str(s) => Some(IndexKeyView::Text(vstd::utf8::encode_utf8(s))),
        RecordValue::Float(b) => Some(IndexKeyView::Float(b)),
        _ => if spec_is_int(v) {
            Some(IndexKeyView::Int(spec_into_u64(v)))
        } else {
            None
        },
    }
}

/// A stored value as a key of the kind of `seek`: converted as the value
/// converts to `u64`, `String` or `f64`.
pub open spec fn spec_key_like(seek: IndexKeyView, v: RecordValue) -> IndexKeyView {
    match seek {
        IndexKeyView::Int(_) => IndexKeyView::Int(spec_into_u64(v)),
        IndexKeyView::Text(_) => IndexKeyView::Text(vstd::utf8::encode_utf8(spec_into_string(v))),
        IndexKeyView::Float(_) => IndexKeyView::Float(spec_into_float_bits(v)),
    }
}

fn text_key(v: &RecordDataType) -> (r: IndexKey)
    ensures
        r@ == IndexKeyView::Text(vstd::utf8::encode_utf8(spec_into_string(v@))),
{
    let s = v.into_string();
    IndexKey::Text(vstd::slice::slice_to_vec(s.as_str().as_bytes()))
}

/// The key by which `v` is searched for (see [`spec_seek_key`]).
pub fn seek_key(v: &RecordDataType) -> (r: Option<IndexKey>)
    ensures
        match spec_seek_key(v@) {
            Some(k) => r matches Some(x) && x@ == k,
            None => r is None,
        },
{
    if RecordDataType::is_record_int(v) {
        Some(IndexKey::Int(v.into_u64()))
    } else if RecordDataType::is_record_string(v) {
        Some(text_key(v))
    } else if RecordDataType::is_record_float(v) {
        Some(IndexKey::Float(v.into_float_bits()))
    } else {
        None
    }
}

/// `v` as a key of the kind of `seek` (see [`spec_key_like`]).
pub fn key_like(seek: &IndexKey, v: &RecordDataType) -> (r: IndexKey)
    ensures
        r@ == spec_key_like(seek@, v@),
{
    match seek {
        IndexKey::Int(_) => IndexKey::Int(v.into_u64()),
        IndexKey::Text(_) => text_key(v),
        IndexKey::Float(_) => IndexKey::Float(v.into_float_bits()),
    }
}

/// The keys of the records of a leaf index page: the first value of each,
/// as a key of the kind of `seek`.
pub open spec fn leaf_keys(rows: Seq<LeafView>, seek: IndexKeyView) -> Seq<IndexKeyView> {
    Seq::new(rows.len(), |i: int| spec_key_like(seek, rows[i].row[0]))
}

/// Every record has a first value.
pub open spec fn rows_keyed(rows: Seq<LeafView>) -> bool {
    forall|i: int| 0 <= i < rows.len() ==> #[trigger] rows[i].row.len() >= 1
}

/// The record of a leaf index page whose first value equals `seek` (as a
/// value of `seek`'s kind), by binary search; `None` when the search finds
/// none or `seek` is neither an integer, text nor a double. When the
/// records are sorted by that value the search finds one exactly when there
/// is one.
pub fn leaf_idx_binsearch_by_val(payload: Vec<LeafPayload>, seek: RecordDataType) -> (r: Option<LeafPayload>)
    requires
        rows_keyed(leaf_views(payload@)),
    ensures
        match spec_seek_key(seek@) {
            None => r is None,
            Some(sk) => match spec_leaf_search(leaf_keys(leaf_views(payload@), sk), sk, 0, payload@.len() as int) {
                Some(i) => r matches Some(p) && p@ == payload@[i]@,
                None => r is None,
            },
        },
        match spec_seek_key(seek@) {
            Some(sk) => strictly_sorted(leaf_keys(leaf_views(payload@), sk)) ==> (r is None <==> forall|j: int|
                0 <= j < payload@.len() ==> !key_eq(leaf_keys(leaf_views(payload@), sk)[j], sk)),
            None => true,
        },
{
    let ghost rows = leaf_views(payload@);
    let sk = match seek_key(&seek) {
        Some(k) => k,
        None => {
            return None;
        },
    };
    let mut keys: Vec<IndexKey> = Vec::new();
    let mut i: usize = 0;
    while i < payload.len()
        invariant
            rows == leaf_views(payload@),
            rows_keyed(rows),
            i <= payload@.len(),
            keys_view(keys@) =~= leaf_keys(rows, sk@).take(i as int),
        decreases payload@.len() - i,
    {
        assert(rows[i as int].row.len() >= 1);
        assert(payload@[i as int].row@.len() >= 1);
        let k = key_like(&sk, &payload[i].row[0]);
        let ghost prev = keys@;
        keys.push(k);
        proof {
            lemma_keys_push(prev, k);
            assert(leaf_keys(rows, sk@).take(i + 1) =~= leaf_keys(rows, sk@).take(i as int).push(leaf_keys(rows, sk@)[i as int]));
        }
        i = i + 1;
    }
    assert(leaf_keys(rows, sk@).take(i as int) =~= leaf_keys(rows, sk@));
    let found = leaf_binsearch(&keys, &sk);
    match found {
        Some(idx) => {
            assert(keys_view(keys@)[idx as int] == keys@[idx as int]@);
            let mut payload = payload;
            let p = payload.remove(idx);
            Some(p)
        },
        None => None,
    }
}

/// The child pointer the `r`-th entry of an interior index page leads to.
pub open spec fn pick_index_child(entries: Seq<InteriorIndexView>, r: int) -> u32 {
    if entries.len() == 0 {
        0
    } else if r < entries.len() {
        entries[r].leftptr
    } else {
        entries.last().rightptr
    }
}

/// Every entry has a key.
pub open spec fn entries_keyed(entries: Seq<InteriorIndexView>) -> bool {
    forall|i: int| 0 <= i < entries.len() ==> (#[trigger] entries[i].data) is Some && entries[i].data.unwrap().len() >= 1
}

/// The keys of the entries of an interior index page: the first value of
/// each, as a key of the kind of `seek`.
pub open spec fn index_keys(entries: Seq<InteriorIndexView>, seek: IndexKeyView) -> Seq<IndexKeyView> {
    Seq::new(entries.len(), |i: int| spec_key_like(seek, entries[i].data.unwrap()[0]))
}

/// The page where the index entry for `seek` might be, from the entries of
/// an interior index page: the left child of the first entry whose key is
/// not below `seek`, the rightmost child when every key is below it; 0 when
/// there are no entries or `seek` is neither an integer, text nor a double.
pub fn interior_idx_binsearch_by_val(payload: Vec<InteriorIndexPayload>, seek: RecordDataType) -> (r: u32)
    requires
        entries_keyed(index_views(payload@)),
    ensures
        match spec_seek_key(seek@) {
            None => r == 0,
            Some(sk) => r == pick_index_child(
                index_views(payload@),
                spec_lower_bound(index_keys(index_views(payload@), sk), sk, 0, payload@.len() as int),
            ),
        },
        match spec_seek_key(seek@) {
            Some(sk) => strictly_sorted(index_keys(index_views(payload@), sk)) ==> r == pick_index_child(
                index_views(payload@),
                first_not_below(index_keys(index_views(payload@), sk), sk),
            ),
            None => true,
        },
{
    let ghost es = index_views(payload@);
    let sk = match seek_key(&seek) {
        Some(k) => k,
        None => {
            return 0;
        },
    };
    let mut keys: Vec<IndexKey> = Vec::new();
    let mut i: usize = 0;
    while i < payload.len()
        invariant
            es == index_views(payload@),
            entries_keyed(es),
            i <= payload@.len(),
            keys_view(keys@) =~= index_keys(es, sk@).take(i as int),
        decreases payload@.len() - i,
    {
        assert(es[i as int].data is Some && es[i as int].data.unwrap().len() >= 1);
        let k = match &payload[i].data {
            Some(d) => key_like(&sk, &d[0]),
            None => {
                assert(false);
                IndexKey::Int(0)
            },
        };
        let ghost prev = keys@;
        keys.push(k);
        proof {
            lemma_keys_push(prev, k);
            assert(index_keys(es, sk@).take(i + 1) =~= index_keys(es, sk@).take(i as int).push(index_keys(es, sk@)[i as int]));
        }
        i = i + 1;
    }
    assert(index_keys(es, sk@).take(i as int) =~= index_keys(es, sk@));
    let pos = lower_bound(&keys, &sk);
    if payload.len() == 0 {
        0
    } else if pos < payload.len() {
        payload[pos].leftptr
    } else {
        payload[payload.len() - 1].rightptr
    }
}

} // verus!
