//! Removal of one key, or of every key of a range, from one tree.
use vstd::prelude::*;
use crate::error::ToolError;
use crate::store::{
    db_keys_before, db_keys_through, db_remove, entries_of, key_views, keys_in_range, store_view,
};

verus! {

/// Removes from the tree named `tree`, which is made if absent, `start_key` and, when `end_key` is given, every key up to it: up to
/// and including it, or short of it when `right_exclusive`. Gives the number
/// of keys that were there and are now gone.
pub fn erase_range(
    db: &mut sled::Db,
    tree: &[u8],
    start_key: &[u8],
    end_key: Option<&[u8]>,
    right_exclusive: bool,
) -> (r: Result<usize, ToolError>)
    ensures
        r matches Err(e) ==> e.is_store(),
        r matches Ok(n) ==> match end_key {
            None => store_view(*final(db)) == store_view(*old(db)).insert(
                tree@,
                entries_of(store_view(*old(db)), tree@).remove(start_key@),
            ) && n == (if entries_of(store_view(*old(db)), tree@).contains_key(start_key@) {
                1usize
            } else {
                0usize
            }),
            Some(e) => store_view(*final(db)) == store_view(*old(db)).insert(
                tree@,
                entries_of(store_view(*old(db)), tree@).remove_keys(
                    keys_in_range(entries_of(store_view(*old(db)), tree@), start_key@, e@, right_exclusive),
                ),
            ) && n == keys_in_range(
                entries_of(store_view(*old(db)), tree@),
                start_key@,
                e@,
                right_exclusive,
            ).len(),
        },
{
    let end = match end_key {
        None => {
            return match db_remove(db, tree, start_key) {
                Ok(Some(_)) => Ok(1),
                Ok(None) => Ok(0),
                Err(e) => Err(ToolError::Store(e)),
            };
        },
        Some(e) => e,
    };
    let ghost s0 = store_view(*db);
    let ghost m0 = entries_of(s0, tree@);
    let ghost range = keys_in_range(m0, start_key@, end@, right_exclusive);
    let listed = if right_exclusive {
        db_keys_before(db, tree, start_key, end)
    } else {
        db_keys_through(db, tree, start_key, end)
    };
    let keys = match listed {
        Ok(ks) => ks,
        Err(e) => return Err(ToolError::Store(e)),
    };
    let ghost kv = key_views(keys@);
    assert(m0.remove_keys(kv.subrange(0, 0).to_set()) =~= m0);
    let mut count: usize = 0;
    let mut i: usize = 0;
    while i < keys.len()
        invariant
            0 <= i <= keys@.len(),
            kv == key_views(keys@),
            kv.no_duplicates(),
            kv.to_set() == range,
            range.subset_of(m0.dom()),
            count == i,
            store_view(*db) == s0.insert(tree@, m0.remove_keys(kv.subrange(0, i as int).to_set())),
        decreases keys@.len() - i,
    {
        let ghost before = entries_of(store_view(*db), tree@);
        let ghost k = kv[i as int];
        assert(kv.contains(k));
        assert(m0.contains_key(k));
        assert(!kv.subrange(0, i as int).contains(k)) by {
            if kv.subrange(0, i as int).contains(k) {
                let j = choose|j: int| 0 <= j < i && kv.subrange(0, i as int)[j] == k;
                assert(kv[j] == kv[i as int]);
            }
        }
        assert(before.contains_key(k));
        match db_remove(db, tree, keys[i].as_slice()) {
            Ok(Some(_)) => {
                count = count + 1;
            },
            Ok(None) => {},
            Err(e) => return Err(ToolError::Store(e)),
        }
        assert(kv.subrange(0, i + 1).to_set() =~= kv.subrange(0, i as int).to_set().insert(k)) by {
            assert(kv.subrange(0, i + 1) =~= kv.subrange(0, i as int).push(k));
            kv.subrange(0, i as int).lemma_push_to_set_commute(k);
        }
        i = i + 1;
        assert(m0.remove_keys(kv.subrange(0, i as int).to_set()) =~= before.remove(k));
        assert(store_view(*db) =~= s0.insert(tree@, m0.remove_keys(kv.subrange(0, i as int).to_set())));
    }
    proof {
        assert(kv.subrange(0, kv.len() as int) =~= kv);
        kv.unique_seq_to_set();
    }
    Ok(count)
}

} // verus!
