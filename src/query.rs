//! Point lookups on one tree: by exact key, by neighbour, or by position.
use vstd::prelude::*;
use crate::bytes::{bytes_copy, bytes_eq};
use crate::error::ToolError;
use crate::store::{
    db_first, db_get, db_get_gt, db_get_lt, db_last, entries_of, is_greatest, is_least,
    is_predecessor, is_successor, key_lt, opened, store_view,
};

verus! {

/// How a requested key is compared with the keys of the tree.
#[derive(Debug, Clone, Copy, PartialEq, Eq, Structural)]
pub enum LookupMode {
    /// The key itself.
    Exact,
    /// The least key strictly above the requested one.
    GreaterThan,
    /// The greatest key strictly below the requested one.
    LessThan,
}

/// The mode that the two neighbour switches ask for; both at once conflict.
pub fn lookup_mode(greater: bool, less: bool) -> (r: Result<LookupMode, ToolError>)
    ensures
        greater && less <==> r matches Err(ToolError::ConflictingModifiers),
        r is Err ==> greater && less,
        greater && !less ==> r == Ok::<LookupMode, ToolError>(LookupMode::GreaterThan),
        !greater && less ==> r == Ok::<LookupMode, ToolError>(LookupMode::LessThan),
        !greater && !less ==> r == Ok::<LookupMode, ToolError>(LookupMode::Exact),
{
    if greater && less {
        Err(ToolError::ConflictingModifiers)
    } else if greater {
        Ok(LookupMode::GreaterThan)
    } else if less {
        Ok(LookupMode::LessThan)
    } else {
        Ok(LookupMode::Exact)
    }
}

/// The bytes of a found entry.
pub open spec fn entry_view(o: Option<(Vec<u8>, Vec<u8>)>) -> Option<(Seq<u8>, Seq<u8>)> {
    match o {
        Some(e) => Some((e.0@, e.1@)),
        None => None,
    }
}

/// A requested key fits a positional match at `k` when it is empty or is `k`.
pub open spec fn key_fits(req: Seq<u8>, k: Seq<u8>) -> bool {
    req.len() == 0 || req == k
}

/// Whether `out` is what a lookup on the entries `m` gives.
pub open spec fn lookup_result(
    m: Map<Seq<u8>, Seq<u8>>,
    req: Seq<u8>,
    mode: LookupMode,
    want_first: bool,
    want_last: bool,
    out: Option<(Seq<u8>, Seq<u8>)>,
) -> bool {
    if want_first && want_last {
        match out {
            Some(e) => is_least(m, e.0) && is_greatest(m, e.0) && key_fits(req, e.0) && e.1 == m[e.0],
            None => forall|k: Seq<u8>|
                !(#[trigger] is_least(m, k) && is_greatest(m, k) && key_fits(req, k)),
        }
    } else if want_first {
        match out {
            Some(e) => is_least(m, e.0) && key_fits(req, e.0) && e.1 == m[e.0],
            None => forall|k: Seq<u8>| !(#[trigger] is_least(m, k) && key_fits(req, k)),
        }
    } else if want_last {
        match out {
            Some(e) => is_greatest(m, e.0) && key_fits(req, e.0) && e.1 == m[e.0],
            None => forall|k: Seq<u8>| !(#[trigger] is_greatest(m, k) && key_fits(req, k)),
        }
    } else {
        match mode {
            LookupMode::Exact => match out {
                Some(e) => e.0 == req && m.contains_key(req) && e.1 == m[req],
                None => !m.contains_key(req),
            },
            LookupMode::GreaterThan => match out {
                Some(e) => is_successor(m, req, e.0) && e.1 == m[e.0],
                None => forall|j: Seq<u8>| #[trigger] m.contains_key(j) ==> !key_lt(req, j),
            },
            LookupMode::LessThan => match out {
                Some(e) => is_predecessor(m, req, e.0) && e.1 == m[e.0],
                None => forall|j: Seq<u8>| #[trigger] m.contains_key(j) ==> !key_lt(j, req),
            },
        }
    }
}

/// No byte string comes before itself, nor both before and after another.
pub proof fn lemma_key_lt_asymmetric(a: Seq<u8>, b: Seq<u8>)
    ensures
        !(key_lt(a, b) && key_lt(b, a)),
    decreases a.len(),
{
    if a.len() > 0 && b.len() > 0 && a[0] == b[0] {
        lemma_key_lt_asymmetric(a.drop_first(), b.drop_first());
    }
}

proof fn lemma_least_unique(m: Map<Seq<u8>, Seq<u8>>, a: Seq<u8>, b: Seq<u8>)
    requires
        is_least(m, a),
        is_least(m, b),
    ensures
        a == b,
{
    if a != b {
        assert(m.contains_key(b));
        assert(m.contains_key(a));
        lemma_key_lt_asymmetric(a, b);
    }
}

proof fn lemma_greatest_unique(m: Map<Seq<u8>, Seq<u8>>, a: Seq<u8>, b: Seq<u8>)
    requires
        is_greatest(m, a),
        is_greatest(m, b),
    ensures
        a == b,
{
    if a != b {
        assert(m.contains_key(b));
        assert(m.contains_key(a));
        lemma_key_lt_asymmetric(a, b);
    }
}

/// Looks `key` up in the tree named `tree`, which is made if absent: by position when `want_first` or `want_last` is
/// set (an empty key then matches any entry), else by `mode`. The key of the
/// result is the key that matched.
pub fn resolve(
    db: &mut sled::Db,
    tree: &[u8],
    key: &[u8],
    mode: LookupMode,
    want_first: bool,
    want_last: bool,
) -> (r: Result<Option<(Vec<u8>, Vec<u8>)>, ToolError>)
    ensures
        r matches Ok(o) ==> lookup_result(
            entries_of(store_view(*old(db)), tree@),
            key@,
            mode,
            want_first,
            want_last,
            entry_view(o),
        ),
        r is Ok ==> store_view(*final(db)) == opened(store_view(*old(db)), tree@),
        r matches Err(e) ==> e.is_store(),
{
    let ghost s0 = store_view(*db);
    let ghost m = entries_of(s0, tree@);
    if want_first && want_last {
        let first = match db_first(db, tree) {
            Ok(x) => x,
            Err(e) => return Err(ToolError::Store(e)),
        };
        assert(entries_of(store_view(*db), tree@) == m);
        assert(opened(store_view(*db), tree@) =~= store_view(*db));
        let last = match db_last(db, tree) {
            Ok(x) => x,
            Err(e) => return Err(ToolError::Store(e)),
        };
        match (first, last) {
            (Some(f), Some(l)) => {
                if !bytes_eq(f.0.as_slice(), l.0.as_slice()) {
                    assert forall|k: Seq<u8>| !(#[trigger] is_least(m, k) && is_greatest(m, k) && key_fits(key@, k)) by {
                        if is_least(m, k) && is_greatest(m, k) {
                            lemma_least_unique(m, k, f.0@);
                            lemma_greatest_unique(m, k, l.0@);
                        }
                    }
                    Ok(None)
                } else if key.len() != 0 && !bytes_eq(key, f.0.as_slice()) {
                    assert forall|k: Seq<u8>| !(#[trigger] is_least(m, k) && is_greatest(m, k) && key_fits(key@, k)) by {
                        if is_least(m, k) {
                            lemma_least_unique(m, k, f.0@);
                        }
                    }
                    Ok(None)
                } else {
                    Ok(Some(f))
                }
            },
            (None, _) => Ok(None),
            (_, None) => Ok(None),
        }
    } else if want_first || want_last {
        let found = if want_first { db_first(db, tree) } else { db_last(db, tree) };
        let found = match found {
            Ok(x) => x,
            Err(e) => return Err(ToolError::Store(e)),
        };
        match found {
            Some(f) => {
                if key.len() != 0 && !bytes_eq(key, f.0.as_slice()) {
                    if want_first {
                        assert forall|k: Seq<u8>| !(#[trigger] is_least(m, k) && key_fits(key@, k)) by {
                            if is_least(m, k) {
                                lemma_least_unique(m, k, f.0@);
                            }
                        }
                    } else {
                        assert forall|k: Seq<u8>| !(#[trigger] is_greatest(m, k) && key_fits(key@, k)) by {
                            if is_greatest(m, k) {
                                lemma_greatest_unique(m, k, f.0@);
                            }
                        }
                    }
                    Ok(None)
                } else {
                    Ok(Some(f))
                }
            },
            None => Ok(None),
        }
    } else {
        match mode {
            LookupMode::Exact => match db_get(db, tree, key) {
                Ok(Some(v)) => Ok(Some((bytes_copy(key), v))),
                Ok(None) => Ok(None),
                Err(e) => Err(ToolError::Store(e)),
            },
            LookupMode::GreaterThan => match db_get_gt(db, tree, key) {
                Ok(o) => Ok(o),
                Err(e) => Err(ToolError::Store(e)),
            },
            LookupMode::LessThan => match db_get_lt(db, tree, key) {
                Ok(o) => Ok(o),
                Err(e) => Err(ToolError::Store(e)),
            },
        }
    }
}

} // verus!
