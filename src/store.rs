//! The ordered store: sled's trees and batches, seen as maps from key bytes
//! to value bytes.
use vstd::prelude::*;

verus! {

#[verifier::external_type_specification]
#[verifier::external_body]
pub struct ExDb(sled::Db);

#[verifier::external_type_specification]
#[verifier::external_body]
pub struct ExBatch(sled::Batch);

#[verifier::external_type_specification]
#[verifier::external_body]
pub struct ExStoreError(sled::Error);

#[verifier::external_type_specification]
#[verifier::external_body]
pub struct ExIter(sled::Iter);

// sled's iterator yields this type, so it is declared along with the iterator.
#[verifier::external_type_specification]
#[verifier::external_body]
pub struct ExIVec(sled::IVec);

/// The trees of a store, each by its name, with the entries that it holds.
pub uninterp spec fn store_view(db: sled::Db) -> Map<Seq<u8>, Map<Seq<u8>, Seq<u8>>>;

/// The inserts that a batch holds, the last one for each key.
pub uninterp spec fn batch_view(b: sled::Batch) -> Map<Seq<u8>, Seq<u8>>;

/// The entries that an iterator has yet to yield, in order.
pub uninterp spec fn iter_view(it: sled::Iter) -> Seq<(Seq<u8>, Seq<u8>)>;

/// The entries of the tree `name`; none where there is no such tree.
pub open spec fn entries_of(s: Map<Seq<u8>, Map<Seq<u8>, Seq<u8>>>, name: Seq<u8>) -> Map<Seq<u8>, Seq<u8>> {
    if s.contains_key(name) {
        s[name]
    } else {
        Map::empty()
    }
}

/// The store `s` once the tree `name` has been opened: made empty if absent.
pub open spec fn opened(s: Map<Seq<u8>, Map<Seq<u8>, Seq<u8>>>, name: Seq<u8>) -> Map<Seq<u8>, Map<Seq<u8>, Seq<u8>>> {
    s.insert(name, entries_of(s, name))
}

/// Byte-lexicographic order: a proper prefix comes first.
pub open spec fn key_lt(a: Seq<u8>, b: Seq<u8>) -> bool
    decreases a.len(),
{
    if a.len() == 0 {
        b.len() > 0
    } else if b.len() == 0 {
        false
    } else if a[0] != b[0] {
        a[0] < b[0]
    } else {
        key_lt(a.drop_first(), b.drop_first())
    }
}

/// `k` is the least key of `m`.
pub open spec fn is_least(m: Map<Seq<u8>, Seq<u8>>, k: Seq<u8>) -> bool {
    m.contains_key(k) && forall|j: Seq<u8>| #[trigger] m.contains_key(j) && j != k ==> key_lt(k, j)
}

/// `k` is the greatest key of `m`.
pub open spec fn is_greatest(m: Map<Seq<u8>, Seq<u8>>, k: Seq<u8>) -> bool {
    m.contains_key(k) && forall|j: Seq<u8>| #[trigger] m.contains_key(j) && j != k ==> key_lt(j, k)
}

/// `k` is the least key of `m` above `lo`.
pub open spec fn is_successor(m: Map<Seq<u8>, Seq<u8>>, lo: Seq<u8>, k: Seq<u8>) -> bool {
    m.contains_key(k) && key_lt(lo, k) && forall|j: Seq<u8>|
        #[trigger] m.contains_key(j) && key_lt(lo, j) && j != k ==> key_lt(k, j)
}

/// `k` is the greatest key of `m` below `hi`.
pub open spec fn is_predecessor(m: Map<Seq<u8>, Seq<u8>>, hi: Seq<u8>, k: Seq<u8>) -> bool {
    m.contains_key(k) && key_lt(k, hi) && forall|j: Seq<u8>|
        #[trigger] m.contains_key(j) && key_lt(j, hi) && j != k ==> key_lt(j, k)
}

/// `k` lies between `lo` and `hi`; `hi` itself counts unless `hi_excluded`.
pub open spec fn in_range(k: Seq<u8>, lo: Seq<u8>, hi: Seq<u8>, hi_excluded: bool) -> bool {
    (k == lo || key_lt(lo, k)) && (key_lt(k, hi) || (!hi_excluded && k == hi))
}

/// The keys of `m` between `lo` and `hi`.
pub open spec fn keys_in_range(m: Map<Seq<u8>, Seq<u8>>, lo: Seq<u8>, hi: Seq<u8>, hi_excluded: bool) -> Set<
    Seq<u8>,
> {
    m.dom().filter(|k: Seq<u8>| in_range(k, lo, hi, hi_excluded))
}

/// The keys of `s` strictly ascend.
pub open spec fn ascending(s: Seq<(Seq<u8>, Seq<u8>)>) -> bool {
    forall|i: int, j: int| 0 <= i < j < s.len() ==> key_lt((#[trigger] s[i]).0, (#[trigger] s[j]).0)
}

/// `s` lists each entry of `m` once, in some order.
pub open spec fn lists_entries(s: Seq<(Seq<u8>, Seq<u8>)>, m: Map<Seq<u8>, Seq<u8>>) -> bool {
    &&& forall|i: int| 0 <= i < s.len() ==> m.contains_key((#[trigger] s[i]).0) && m[s[i].0] == s[i].1
    &&& forall|k: Seq<u8>| #[trigger] m.contains_key(k) ==> exists|i: int| 0 <= i < s.len() && s[i].0 == k
    &&& forall|i: int, j: int| 0 <= i < j < s.len() ==> (#[trigger] s[i]).0 != (#[trigger] s[j]).0
}

/// The key bytes of each key in a list.
pub open spec fn key_views(ks: Seq<Vec<u8>>) -> Seq<Seq<u8>> {
    ks.map_values(|k: Vec<u8>| k@)
}

/// Relies on sled::Db::tree_names: the name of every open tree, once each.
#[verifier::external_body]
pub(crate) fn db_tree_names(db: &sled::Db) -> (r: Vec<Vec<u8>>)
    ensures
        key_views(r@).no_duplicates(),
        key_views(r@).to_set() == store_view(*db).dom(),
{
    db.tree_names().into_iter().map(|n| n.to_vec()).collect()
}

/// Relies on sled::Db::open_tree (which makes an absent tree) and
/// sled::Tree::get: the value stored under `k` in the tree `name`.
#[verifier::external_body]
pub(crate) fn db_get(db: &mut sled::Db, name: &[u8], k: &[u8]) -> (r: Result<Option<Vec<u8>>, sled::Error>)
    ensures
        r is Ok ==> store_view(*final(db)) == opened(store_view(*old(db)), name@),
        r matches Ok(o) ==> (o is Some <==> entries_of(store_view(*old(db)), name@).contains_key(k@)),
        r matches Ok(Some(v)) ==> v@ == entries_of(store_view(*old(db)), name@)[k@],
{
    db.open_tree(name).and_then(|t| t.get(k)).map(|o| o.map(|v| v.to_vec()))
}

/// Relies on sled::Db::open_tree and sled::Tree::get_gt: the entry of the
/// tree `name` with the least key above `k`.
#[verifier::external_body]
pub(crate) fn db_get_gt(db: &mut sled::Db, name: &[u8], k: &[u8]) -> (r: Result<Option<(Vec<u8>, Vec<u8>)>, sled::Error>)
    ensures
        r is Ok ==> store_view(*final(db)) == opened(store_view(*old(db)), name@),
        r matches Ok(Some(e)) ==> is_successor(entries_of(store_view(*old(db)), name@), k@, e.0@) && e.1@
            == entries_of(store_view(*old(db)), name@)[e.0@],
        r matches Ok(None) ==> forall|j: Seq<u8>| #[trigger] entries_of(store_view(*old(db)), name@).contains_key(j) ==> !key_lt(k@, j),
{
    db.open_tree(name).and_then(|t| t.get_gt(k)).map(|o| o.map(|(a, b)| (a.to_vec(), b.to_vec())))
}

/// Relies on sled::Db::open_tree and sled::Tree::get_lt: the entry of the
/// tree `name` with the greatest key below `k`.
#[verifier::external_body]
pub(crate) fn db_get_lt(db: &mut sled::Db, name: &[u8], k: &[u8]) -> (r: Result<Option<(Vec<u8>, Vec<u8>)>, sled::Error>)
    ensures
        r is Ok ==> store_view(*final(db)) == opened(store_view(*old(db)), name@),
        r matches Ok(Some(e)) ==> is_predecessor(entries_of(store_view(*old(db)), name@), k@, e.0@) && e.1@
            == entries_of(store_view(*old(db)), name@)[e.0@],
        r matches Ok(None) ==> forall|j: Seq<u8>| #[trigger] entries_of(store_view(*old(db)), name@).contains_key(j) ==> !key_lt(j, k@),
{
    db.open_tree(name).and_then(|t| t.get_lt(k)).map(|o| o.map(|(a, b)| (a.to_vec(), b.to_vec())))
}

/// Relies on sled::Db::open_tree and sled::Tree::first: the entry of the
/// tree `name` with the least key.
#[verifier::external_body]
pub(crate) fn db_first(db: &mut sled::Db, name: &[u8]) -> (r: Result<Option<(Vec<u8>, Vec<u8>)>, sled::Error>)
    ensures
        r is Ok ==> store_view(*final(db)) == opened(store_view(*old(db)), name@),
        r matches Ok(Some(e)) ==> is_least(entries_of(store_view(*old(db)), name@), e.0@) && e.1@ == entries_of(
            store_view(*old(db)),
            name@,
        )[e.0@],
        r matches Ok(None) ==> entries_of(store_view(*old(db)), name@).dom().is_empty(),
{
    db.open_tree(name).and_then(|t| t.first()).map(|o| o.map(|(a, b)| (a.to_vec(), b.to_vec())))
}

/// Relies on sled::Db::open_tree and sled::Tree::last: the entry of the
/// tree `name` with the greatest key.
#[verifier::external_body]
pub(crate) fn db_last(db: &mut sled::Db, name: &[u8]) -> (r: Result<Option<(Vec<u8>, Vec<u8>)>, sled::Error>)
    ensures
        r is Ok ==> store_view(*final(db)) == opened(store_view(*old(db)), name@),
        r matches Ok(Some(e)) ==> is_greatest(entries_of(store_view(*old(db)), name@), e.0@) && e.1@
            == entries_of(store_view(*old(db)), name@)[e.0@],
        r matches Ok(None) ==> entries_of(store_view(*old(db)), name@).dom().is_empty(),
{
    db.open_tree(name).and_then(|t| t.last()).map(|o| o.map(|(a, b)| (a.to_vec(), b.to_vec())))
}

/// Relies on sled::Db::open_tree and sled::Tree::remove: drops `k` from the
/// tree `name` and hands back its value, if any.
#[verifier::external_body]
pub(crate) fn db_remove(db: &mut sled::Db, name: &[u8], k: &[u8]) -> (r: Result<Option<Vec<u8>>, sled::Error>)
    ensures
        r is Ok ==> store_view(*final(db)) == store_view(*old(db)).insert(
            name@,
            entries_of(store_view(*old(db)), name@).remove(k@),
        ),
        r matches Ok(o) ==> (o is Some <==> entries_of(store_view(*old(db)), name@).contains_key(k@)),
        r matches Ok(Some(v)) ==> v@ == entries_of(store_view(*old(db)), name@)[k@],
{
    db.open_tree(name).and_then(|t| t.remove(k)).map(|o| o.map(|v| v.to_vec()))
}

/// Relies on sled::Db::open_tree and sled::Tree::range over `lo..=hi`: the
/// keys of the tree `name` in that range, ascending.
#[verifier::external_body]
pub(crate) fn db_keys_through(db: &mut sled::Db, name: &[u8], lo: &[u8], hi: &[u8]) -> (r: Result<Vec<Vec<u8>>, sled::Error>)
    ensures
        r is Ok ==> store_view(*final(db)) == opened(store_view(*old(db)), name@),
        r matches Ok(ks) ==> key_views(ks@).no_duplicates() && key_views(ks@).to_set() == keys_in_range(
            entries_of(store_view(*old(db)), name@),
            lo@,
            hi@,
            false,
        ),
{
    db.open_tree(name).and_then(|t| t.range(lo..=hi).keys().map(|r| r.map(|k| k.to_vec())).collect())
}

/// Relies on sled::Db::open_tree and sled::Tree::range over `lo..hi`: the
/// keys of the tree `name` in that range, ascending.
#[verifier::external_body]
pub(crate) fn db_keys_before(db: &mut sled::Db, name: &[u8], lo: &[u8], hi: &[u8]) -> (r: Result<Vec<Vec<u8>>, sled::Error>)
    ensures
        r is Ok ==> store_view(*final(db)) == opened(store_view(*old(db)), name@),
        r matches Ok(ks) ==> key_views(ks@).no_duplicates() && key_views(ks@).to_set() == keys_in_range(
            entries_of(store_view(*old(db)), name@),
            lo@,
            hi@,
            true,
        ),
{
    db.open_tree(name).and_then(|t| t.range(lo..hi).keys().map(|r| r.map(|k| k.to_vec())).collect())
}

/// Relies on sled::Db::open_tree, of a tree that exists, and sled::Tree::iter:
/// every entry of the tree `name`, in ascending key order. The iterator reads
/// the tree as it goes; the shared borrow of `db` keeps writers out.
#[verifier::external_body]
pub(crate) fn db_iter(db: &sled::Db, name: &[u8]) -> (r: Result<sled::Iter, sled::Error>)
    requires
        store_view(*db).contains_key(name@),
    ensures
        r matches Ok(it) ==> lists_entries(iter_view(it), store_view(*db)[name@]) && ascending(iter_view(it)),
{
    db.open_tree(name).map(|t| t.iter())
}

/// Relies on sled::Iter::next: the next entry, in ascending key order.
#[verifier::external_body]
pub(crate) fn iter_next(it: &mut sled::Iter) -> (r: Option<Result<(Vec<u8>, Vec<u8>), sled::Error>>)
    ensures
        r is None ==> iter_view(*old(it)).len() == 0 && iter_view(*final(it)).len() == 0,
        r matches Some(Ok(e)) ==> iter_view(*old(it)).len() > 0 && (e.0@, e.1@) == iter_view(*old(it))[0]
            && iter_view(*final(it)) == iter_view(*old(it)).drop_first(),
{
    it.next().map(|r| r.map(|(k, v)| (k.to_vec(), v.to_vec())))
}

/// Relies on sled::Batch::default: a batch with no writes.
#[verifier::external_body]
pub(crate) fn batch_new() -> (r: sled::Batch)
    ensures
        batch_view(r).dom().is_empty(),
{
    sled::Batch::default()
}

/// Relies on sled::Batch::insert: records a write of `v` under `k`, replacing
/// an earlier one for `k`.
#[verifier::external_body]
pub(crate) fn batch_insert(b: &mut sled::Batch, k: Vec<u8>, v: Vec<u8>)
    ensures
        batch_view(*final(b)) == batch_view(*old(b)).insert(k@, v@),
{
    b.insert(k, v)
}

/// Relies on sled::Db::open_tree and sled::Tree::apply_batch: all writes of
/// the batch land in the tree `name` at once. On a failure the tree may not
/// have been opened, or a part of the batch may have landed.
#[verifier::external_body]
pub(crate) fn db_apply_batch(db: &mut sled::Db, name: &[u8], b: sled::Batch) -> (r: Result<(), sled::Error>)
    ensures
        r is Ok ==> store_view(*final(db)) == store_view(*old(db)).insert(
            name@,
            entries_of(store_view(*old(db)), name@).union_prefer_right(batch_view(b)),
        ),
        r is Err ==> store_view(*final(db)) == store_view(*old(db)) || exists|keys: Set<Seq<u8>>|
            store_view(*final(db)) == store_view(*old(db)).insert(
                name@,
                entries_of(store_view(*old(db)), name@).union_prefer_right(batch_view(b).restrict(keys)),
            ),
{
    db.open_tree(name).and_then(|t| t.apply_batch(b))
}

} // verus!
