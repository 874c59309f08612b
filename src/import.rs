//! Import of hexadecimal entries into trees, in atomic batches of bounded size.
use vstd::prelude::*;
use crate::error::ToolError;
use crate::hexcodec::{bytes_of_hex, from_hex, hex_of, is_hex_text, lemma_decode_encode};
use crate::store::{
    batch_insert, batch_new, batch_view, db_apply_batch, entries_of, lists_entries, store_view,
};

verus! {

/// The most entries that one batch holds before it is applied.
pub const MAX_BATCH_SIZE: usize = 4096;

/// The entries written by a sequence of inserts: a later insert of a key wins.
pub open spec fn pairs_map(s: Seq<(Seq<u8>, Seq<u8>)>) -> Map<Seq<u8>, Seq<u8>>
    decreases s.len(),
{
    if s.len() == 0 {
        Map::empty()
    } else {
        pairs_map(s.drop_last()).insert(s.last().0, s.last().1)
    }
}

/// The text of a list of entries.
pub open spec fn entries_text(s: Seq<(String, String)>) -> Seq<(Seq<char>, Seq<char>)> {
    s.map_values(|e: (String, String)| (e.0@, e.1@))
}

/// Whether both fields of an entry are hexadecimal text.
pub open spec fn entry_is_hex(e: (Seq<char>, Seq<char>)) -> bool {
    is_hex_text(e.0) && is_hex_text(e.1)
}

/// Whether every entry of a list is hexadecimal text.
pub open spec fn entries_are_hex(s: Seq<(Seq<char>, Seq<char>)>) -> bool {
    forall|i: int| 0 <= i < s.len() ==> entry_is_hex(#[trigger] s[i])
}

/// The bytes that a list of hexadecimal entries spells.
pub open spec fn decode_entries(s: Seq<(Seq<char>, Seq<char>)>) -> Seq<(Seq<u8>, Seq<u8>)> {
    s.map_values(|e: (Seq<char>, Seq<char>)| (bytes_of_hex(e.0), bytes_of_hex(e.1)))
}

/// The first `i` entries are hexadecimal text and entry `i` is not.
pub open spec fn first_bad_entry(s: Seq<(Seq<char>, Seq<char>)>, i: int) -> bool {
    &&& 0 <= i < s.len()
    &&& !entry_is_hex(s[i])
    &&& forall|j: int| 0 <= j < i ==> entry_is_hex(#[trigger] s[j])
}

/// How many of `n` accepted entries have been applied in full batches.
pub open spec fn committed_len(n: int) -> int {
    n - n % (MAX_BATCH_SIZE as int)
}

/// Applying the inserts of `a` and then those of `b` is applying `a + b`.
pub proof fn lemma_pairs_map_concat(
    m: Map<Seq<u8>, Seq<u8>>,
    a: Seq<(Seq<u8>, Seq<u8>)>,
    b: Seq<(Seq<u8>, Seq<u8>)>,
)
    ensures
        m.union_prefer_right(pairs_map(a)).union_prefer_right(pairs_map(b)) == m.union_prefer_right(
            pairs_map(a + b),
        ),
    decreases b.len(),
{
    if b.len() == 0 {
        assert(a + b =~= a);
        assert(m.union_prefer_right(pairs_map(a)).union_prefer_right(pairs_map(b)) =~= m.union_prefer_right(
            pairs_map(a),
        ));
    } else {
        lemma_pairs_map_concat(m, a, b.drop_last());
        assert((a + b).drop_last() =~= a + b.drop_last());
        assert((a + b).last() == b.last());
        let x = m.union_prefer_right(pairs_map(a));
        assert(pairs_map(b) == pairs_map(b.drop_last()).insert(b.last().0, b.last().1));
        assert(pairs_map(a + b) == pairs_map(a + b.drop_last()).insert(b.last().0, b.last().1));
        assert(x.union_prefer_right(pairs_map(b)) =~= x.union_prefer_right(pairs_map(b.drop_last())).insert(
            b.last().0,
            b.last().1,
        ));
        assert(m.union_prefer_right(pairs_map(a + b)) =~= m.union_prefer_right(
            pairs_map(a + b.drop_last()),
        ).insert(b.last().0, b.last().1));
        assert(m.union_prefer_right(pairs_map(a)).union_prefer_right(pairs_map(b)) =~= m.union_prefer_right(
            pairs_map(a + b),
        ));
    }
}

/// The store `s` with the inserts `d` applied, in order, to the tree `name`,
/// which is made if absent.
pub open spec fn with_inserts(
    s: Map<Seq<u8>, Map<Seq<u8>, Seq<u8>>>,
    name: Seq<u8>,
    d: Seq<(Seq<u8>, Seq<u8>)>,
) -> Map<Seq<u8>, Map<Seq<u8>, Seq<u8>>> {
    s.insert(name, entries_of(s, name).union_prefer_right(pairs_map(d)))
}

/// The store `s` once the text entries `text` are imported into the tree `name`.
pub open spec fn tree_imported(
    s: Map<Seq<u8>, Map<Seq<u8>, Seq<u8>>>,
    name: Seq<u8>,
    text: Seq<(Seq<char>, Seq<char>)>,
) -> Map<Seq<u8>, Map<Seq<u8>, Seq<u8>>> {
    with_inserts(s, name, decode_entries(text))
}

/// The store `s` once the first `c` entries, a whole number of batches, are
/// applied: untouched while there are none.
pub open spec fn batches_applied(
    s: Map<Seq<u8>, Map<Seq<u8>, Seq<u8>>>,
    name: Seq<u8>,
    text: Seq<(Seq<char>, Seq<char>)>,
    c: int,
) -> Map<Seq<u8>, Map<Seq<u8>, Seq<u8>>> {
    if c == 0 {
        s
    } else {
        with_inserts(s, name, decode_entries(text).take(c))
    }
}

/// An import of `text` into the tree `name` of `s0` stopped at its first
/// entry that is not hexadecimal text, leaving `s1`: the full batches before
/// it are applied, the rest is not.
pub open spec fn tree_import_stopped(
    s0: Map<Seq<u8>, Map<Seq<u8>, Seq<u8>>>,
    name: Seq<u8>,
    text: Seq<(Seq<char>, Seq<char>)>,
    s1: Map<Seq<u8>, Map<Seq<u8>, Seq<u8>>>,
) -> bool {
    exists|i: int| #[trigger]
        first_bad_entry(text, i) && s1 == batches_applied(s0, name, text, committed_len(i))
}

/// Where the batch of the entries from `c` on ends.
pub open spec fn batch_end(len: int, c: int) -> int {
    if c + MAX_BATCH_SIZE <= len {
        c + MAX_BATCH_SIZE as int
    } else {
        len
    }
}

/// An import of `text` into the tree `name` of `s0` failed in the store while
/// it applied the batch of the entries from `c` on, leaving `s1`: the batches
/// before are applied, and of that batch some keys or none.
pub open spec fn batch_failed_at(
    s0: Map<Seq<u8>, Map<Seq<u8>, Seq<u8>>>,
    name: Seq<u8>,
    text: Seq<(Seq<char>, Seq<char>)>,
    s1: Map<Seq<u8>, Map<Seq<u8>, Seq<u8>>>,
    c: int,
    keys: Set<Seq<u8>>,
) -> bool {
    let d = decode_entries(text);
    let e = batch_end(text.len() as int, c);
    &&& 0 <= c <= text.len()
    &&& c % (MAX_BATCH_SIZE as int) == 0
    &&& (c + MAX_BATCH_SIZE <= text.len() || c == committed_len(text.len() as int))
    &&& forall|j: int| 0 <= j < e ==> entry_is_hex(#[trigger] text[j])
    &&& ((c == 0 && s1 == s0) || s1 == s0.insert(
        name,
        entries_of(s0, name).union_prefer_right(pairs_map(d.take(c))).union_prefer_right(
            pairs_map(d.subrange(c, e)).restrict(keys),
        ),
    ))
}

/// An import of `text` into the tree `name` of `s0` failed in the store,
/// leaving `s1`.
pub open spec fn tree_import_failed(
    s0: Map<Seq<u8>, Map<Seq<u8>, Seq<u8>>>,
    name: Seq<u8>,
    text: Seq<(Seq<char>, Seq<char>)>,
    s1: Map<Seq<u8>, Map<Seq<u8>, Seq<u8>>>,
) -> bool {
    exists|c: int, keys: Set<Seq<u8>>| #[trigger] batch_failed_at(s0, name, text, s1, c, keys)
}

/// The inserts accepted for one tree and not yet applied to it: at most
/// `MAX_BATCH_SIZE - 1` of them, for as soon as a batch is full it is applied.
pub struct BatchAccumulator {
    batch: sled::Batch,
    count: usize,
    pending: Ghost<Seq<(Seq<u8>, Seq<u8>)>>,
}

impl BatchAccumulator {
    /// The inserts not yet applied, in the order they came.
    pub closed spec fn pending(&self) -> Seq<(Seq<u8>, Seq<u8>)> {
        self.pending@
    }

    /// The batch holds exactly the pending inserts, and is not full.
    pub closed spec fn wf(&self) -> bool {
        &&& self.count == self.pending@.len()
        &&& self.count < MAX_BATCH_SIZE
        &&& batch_view(self.batch) == pairs_map(self.pending@)
    }

    /// An accumulator with nothing pending.
    pub fn new() -> (r: Self)
        ensures
            r.wf(),
            r.pending().len() == 0,
    {
        let r = BatchAccumulator { batch: batch_new(), count: 0, pending: Ghost(Seq::empty()) };
        assert(batch_view(r.batch) =~= pairs_map(r.pending@));
        r
    }

    /// Decodes one entry for the tree `name` and adds it to the batch. When
    /// that fills the batch, the batch is applied to the tree at once and a
    /// new one begins. Text that is not hexadecimal changes nothing.
    pub fn add(&mut self, db: &mut sled::Db, name: &[u8], key_hex: &str, value_hex: &str) -> (r: Result<
        (),
        ToolError,
    >)
        requires
            old(self).wf(),
        ensures
            r matches Err(ToolError::InvalidEncoding) <==> !(is_hex_text(key_hex@) && is_hex_text(
                value_hex@,
            )),
            r matches Err(ToolError::InvalidEncoding) ==> *final(self) == *old(self) && store_view(
                *final(db),
            ) == store_view(*old(db)),
            r is Ok ==> final(self).wf(),
            r is Ok && old(self).pending().len() + 1 < MAX_BATCH_SIZE ==> final(self).pending() == old(
                self,
            ).pending().push((bytes_of_hex(key_hex@), bytes_of_hex(value_hex@))) && store_view(
                *final(db),
            ) == store_view(*old(db)),
            r is Ok && old(self).pending().len() + 1 == MAX_BATCH_SIZE ==> final(self).pending().len() == 0
                && store_view(*final(db)) == with_inserts(
                store_view(*old(db)),
                name@,
                old(self).pending().push((bytes_of_hex(key_hex@), bytes_of_hex(value_hex@))),
            ),
            r matches Err(ToolError::Store(_)) ==> is_hex_text(key_hex@) && is_hex_text(value_hex@)
                && old(self).pending().len() + 1 == MAX_BATCH_SIZE && (store_view(*final(db)) == store_view(
                *old(db),
            ) || exists|keys: Set<Seq<u8>>|
                store_view(*final(db)) == store_view(*old(db)).insert(
                    name@,
                    entries_of(store_view(*old(db)), name@).union_prefer_right(
                        pairs_map(
                            old(self).pending().push((bytes_of_hex(key_hex@), bytes_of_hex(value_hex@))),
                        ).restrict(keys),
                    ),
                )),
            r matches Err(e) ==> e is InvalidEncoding || e.is_store(),
    {
        let key = match from_hex(key_hex) {
            Ok(k) => k,
            Err(e) => return Err(e),
        };
        let value = match from_hex(value_hex) {
            Ok(v) => v,
            Err(e) => return Err(e),
        };
        let ghost entry = (key@, value@);
        batch_insert(&mut self.batch, key, value);
        self.count = self.count + 1;
        self.pending = Ghost(self.pending@.push(entry));
        assert(self.pending@.drop_last() =~= old(self).pending@);
        if self.count >= MAX_BATCH_SIZE {
            let mut full = batch_new();
            core::mem::swap(&mut full, &mut self.batch);
            self.count = 0;
            self.pending = Ghost(Seq::empty());
            assert(batch_view(self.batch) =~= pairs_map(self.pending@));
            let ghost s0 = store_view(*db);
            let ghost all = old(self).pending@.push(entry);
            assert(batch_view(full) == pairs_map(all));
            match db_apply_batch(db, name, full) {
                Ok(()) => Ok(()),
                Err(e) => {
                    proof {
                        if store_view(*db) != s0 {
                            let keys = choose|keys: Set<Seq<u8>>|
                                store_view(*db) == s0.insert(
                                    name@,
                                    entries_of(s0, name@).union_prefer_right(batch_view(full).restrict(keys)),
                                );
                            assert(store_view(*db) == s0.insert(
                                name@,
                                entries_of(s0, name@).union_prefer_right(pairs_map(all).restrict(keys)),
                            ));
                        }
                    }
                    Err(ToolError::Store(e))
                },
            }
        } else {
            Ok(())
        }
    }

    /// Applies what is pending to the tree `name`, even when nothing is.
    pub fn finish(self, db: &mut sled::Db, name: &[u8]) -> (r: Result<(), ToolError>)
        requires
            self.wf(),
        ensures
            r is Ok ==> store_view(*final(db)) == with_inserts(store_view(*old(db)), name@, self.pending()),
            r is Err ==> store_view(*final(db)) == store_view(*old(db)) || exists|keys: Set<Seq<u8>>|
                store_view(*final(db)) == store_view(*old(db)).insert(
                    name@,
                    entries_of(store_view(*old(db)), name@).union_prefer_right(
                        pairs_map(self.pending()).restrict(keys),
                    ),
                ),
            r matches Err(e) ==> e.is_store(),
    {
        let ghost s0 = store_view(*db);
        let ghost bv = batch_view(self.batch);
        match db_apply_batch(db, name, self.batch) {
            Ok(()) => Ok(()),
            Err(e) => {
                proof {
                    if store_view(*db) != s0 {
                        let keys = choose|keys: Set<Seq<u8>>|
                            store_view(*db) == s0.insert(
                                name@,
                                entries_of(s0, name@).union_prefer_right(bv.restrict(keys)),
                            );
                        assert(store_view(*db) == s0.insert(
                            name@,
                            entries_of(s0, name@).union_prefer_right(pairs_map(self.pending()).restrict(keys)),
                        ));
                    }
                }
                Err(ToolError::Store(e))
            },
        }
    }
}

proof fn lemma_committed_len(i: int, c: int)
    requires
        c >= 0,
        c % (MAX_BATCH_SIZE as int) == 0,
        0 <= i - c < MAX_BATCH_SIZE,
    ensures
        committed_len(i) == c,
{
    let q = c / 4096;
    assert(c == 4096 * q);
    assert(i == 4096 * q + (i - c));
    vstd::arithmetic::div_mod::lemma_fundamental_div_mod_converse(i, 4096, q, i - c);
}

proof fn lemma_batches_applied(
    s0: Map<Seq<u8>, Map<Seq<u8>, Seq<u8>>>,
    name: Seq<u8>,
    text: Seq<(Seq<char>, Seq<char>)>,
    c: int,
    x: Map<Seq<u8>, Seq<u8>>,
)
    requires
        0 <= c <= text.len(),
    ensures
        entries_of(batches_applied(s0, name, text, c), name) == entries_of(s0, name).union_prefer_right(
            pairs_map(decode_entries(text).take(c)),
        ),
        batches_applied(s0, name, text, c).insert(name, x) == s0.insert(name, x),
{
    let d = decode_entries(text);
    if c == 0 {
        assert(d.take(0).len() == 0);
        assert(entries_of(s0, name).union_prefer_right(pairs_map(d.take(0))) =~= entries_of(s0, name));
    }
    assert(batches_applied(s0, name, text, c).insert(name, x) =~= s0.insert(name, x));
}

/// Imports hexadecimal entries into the tree `name`, made if absent, in order,
/// so that a later entry for a key wins. Every `MAX_BATCH_SIZE` entries are
/// applied at once, and the rest at the end. An entry that is not hexadecimal
/// text stops the import: the batches already applied stay, the entries not
/// yet applied are dropped. A failure of the store stops it too.
pub fn import_tree(db: &mut sled::Db, name: &[u8], entries: &Vec<(String, String)>) -> (r: Result<(), ToolError>)
    ensures
        r is Ok ==> entries_are_hex(entries_text(entries@)),
        r is Ok ==> store_view(*final(db)) == tree_imported(store_view(*old(db)), name@, entries_text(entries@)),
        entries_are_hex(entries_text(entries@)) ==> !(r matches Err(ToolError::InvalidEncoding)),
        r matches Err(ToolError::InvalidEncoding) ==> tree_import_stopped(
            store_view(*old(db)),
            name@,
            entries_text(entries@),
            store_view(*final(db)),
        ),
        r matches Err(ToolError::Store(_)) ==> tree_import_failed(
            store_view(*old(db)),
            name@,
            entries_text(entries@),
            store_view(*final(db)),
        ),
        r matches Err(e) ==> e is InvalidEncoding || e.is_store(),
{
    let ghost s0 = store_view(*db);
    let ghost text = entries_text(entries@);
    let ghost dec = decode_entries(text);
    let ghost mut committed: int = 0;
    let mut acc = BatchAccumulator::new();
    let mut i: usize = 0;
    while i < entries.len()
        invariant
            0 <= committed <= i <= entries@.len(),
            text == entries_text(entries@),
            dec == decode_entries(text),
            committed % (MAX_BATCH_SIZE as int) == 0,
            s0 == store_view(*old(db)),
            acc.wf(),
            acc.pending() == dec.subrange(committed, i as int),
            forall|j: int| 0 <= j < i ==> entry_is_hex(#[trigger] text[j]),
            store_view(*db) == batches_applied(s0, name@, text, committed),
        decreases entries@.len() - i,
    {
        let ghost cur = store_view(*db);
        let ghost acc0 = acc;
        proof {
            lemma_committed_len(i as int, committed);
            lemma_batches_applied(s0, name@, text, committed, Map::empty());
            assert(text[i as int] == (entries@[i as int].0@, entries@[i as int].1@));
            assert(dec[i as int] == (bytes_of_hex(text[i as int].0), bytes_of_hex(text[i as int].1)));
            assert(dec.subrange(committed, i + 1) =~= dec.subrange(committed, i as int).push(dec[i as int]));
        }
        match acc.add(db, name, entries[i].0.as_str(), entries[i].1.as_str()) {
            Ok(()) => {},
            Err(e) => {
                proof {
                    if e is InvalidEncoding {
                        assert(first_bad_entry(text, i as int));
                    } else {
                        let e_end = batch_end(text.len() as int, committed);
                        assert(e_end == i + 1);
                        assert forall|j: int| 0 <= j < e_end implies entry_is_hex(#[trigger] text[j]) by {
                            if j == i {
                                assert(entry_is_hex(text[i as int]));
                            }
                        }
                        let chunk = pairs_map(dec.subrange(committed, e_end));
                        let e0 = entries_of(s0, name@).union_prefer_right(pairs_map(dec.take(committed)));
                        lemma_batches_applied(s0, name@, text, committed, e0.union_prefer_right(chunk.restrict(Set::empty())));
                        if store_view(*db) == cur {
                            if committed == 0 {
                                assert(batch_failed_at(s0, name@, text, store_view(*db), committed, Set::empty()));
                            } else {
                                assert(e0.union_prefer_right(chunk.restrict(Set::empty())) =~= e0);
                                assert(cur =~= s0.insert(name@, e0));
                                assert(batch_failed_at(s0, name@, text, store_view(*db), committed, Set::empty()));
                            }
                        } else {
                            let keys = choose|keys: Set<Seq<u8>>|
                                store_view(*db) == cur.insert(
                                    name@,
                                    entries_of(cur, name@).union_prefer_right(
                                        pairs_map(acc0.pending().push(dec[i as int])).restrict(keys),
                                    ),
                                );
                            lemma_batches_applied(s0, name@, text, committed, e0.union_prefer_right(chunk.restrict(keys)));
                            assert(batch_failed_at(s0, name@, text, store_view(*db), committed, keys));
                        }
                    }
                }
                return Err(e);
            },
        }
        proof {
            if acc0.pending().len() + 1 == MAX_BATCH_SIZE {
                let e0 = entries_of(s0, name@);
                lemma_pairs_map_concat(e0, dec.take(committed), dec.subrange(committed, i + 1));
                assert(dec.take(committed) + dec.subrange(committed, i + 1) =~= dec.take(i + 1));
                lemma_batches_applied(s0, name@, text, committed, e0.union_prefer_right(pairs_map(dec.take(i + 1))));
                committed = i + 1;
                assert(store_view(*db) =~= batches_applied(s0, name@, text, committed));
            }
        }
        i = i + 1;
    }
    let ghost cur = store_view(*db);
    proof {
        lemma_committed_len(i as int, committed);
        lemma_committed_len(text.len() as int, committed);
        let e0 = entries_of(s0, name@);
        lemma_pairs_map_concat(e0, dec.take(committed), dec.subrange(committed, i as int));
        assert(dec.take(committed) + dec.subrange(committed, i as int) =~= dec);
        lemma_batches_applied(s0, name@, text, committed, e0.union_prefer_right(pairs_map(dec)));
    }
    let ghost pend = acc.pending();
    let r = acc.finish(db, name);
    proof {
        if r is Err {
            let e_end = batch_end(text.len() as int, committed);
            assert(e_end == text.len());
            let chunk = pairs_map(dec.subrange(committed, e_end));
            let e0 = entries_of(s0, name@).union_prefer_right(pairs_map(dec.take(committed)));
            if store_view(*db) == cur {
                if committed == 0 {
                    assert(batch_failed_at(s0, name@, text, store_view(*db), committed, Set::empty()));
                } else {
                    lemma_batches_applied(s0, name@, text, committed, e0.union_prefer_right(chunk.restrict(Set::empty())));
                    assert(e0.union_prefer_right(chunk.restrict(Set::empty())) =~= e0);
                    assert(cur =~= s0.insert(name@, e0));
                    assert(batch_failed_at(s0, name@, text, store_view(*db), committed, Set::empty()));
                }
            } else {
                let keys = choose|keys: Set<Seq<u8>>|
                    store_view(*db) == cur.insert(
                        name@,
                        entries_of(cur, name@).union_prefer_right(pairs_map(pend).restrict(keys)),
                    );
                lemma_batches_applied(s0, name@, text, committed, e0.union_prefer_right(chunk.restrict(keys)));
                assert(batch_failed_at(s0, name@, text, store_view(*db), committed, keys));
            }
        }
    }
    r
}

/// The text of a document: each tree name with its entries.
pub open spec fn doc_text(doc: Seq<(String, Vec<(String, String)>)>) -> Seq<(Seq<char>, Seq<(Seq<char>, Seq<char>)>)> {
    doc.map_values(|t: (String, Vec<(String, String)>)| (t.0@, entries_text(t.1@)))
}

/// Whether every tree name and every entry of a document is hexadecimal text.
pub open spec fn doc_is_hex(d: Seq<(Seq<char>, Seq<(Seq<char>, Seq<char>)>)>) -> bool {
    forall|i: int| 0 <= i < d.len() ==> is_hex_text((#[trigger] d[i]).0) && entries_are_hex(d[i].1)
}

/// The store `s` once the trees of the document `d` are imported, in order.
pub open spec fn doc_imported(
    s: Map<Seq<u8>, Map<Seq<u8>, Seq<u8>>>,
    d: Seq<(Seq<char>, Seq<(Seq<char>, Seq<char>)>)>,
) -> Map<Seq<u8>, Map<Seq<u8>, Seq<u8>>>
    decreases d.len(),
{
    if d.len() == 0 {
        s
    } else {
        tree_imported(doc_imported(s, d.drop_last()), bytes_of_hex(d.last().0), d.last().1)
    }
}

/// Imports a document, tree by tree in its order: each tree is made if absent
/// and gets its entries as `import_tree` gives them. The first name or entry
/// that is not hexadecimal text, or the first failure of the store, stops the
/// import; what was applied before stays.
pub fn import_document(db: &mut sled::Db, doc: &Vec<(String, Vec<(String, String)>)>) -> (r: Result<(), ToolError>)
    ensures
        r is Ok ==> doc_is_hex(doc_text(doc@)),
        r is Ok ==> store_view(*final(db)) == doc_imported(store_view(*old(db)), doc_text(doc@)),
        doc@.len() == 0 ==> r is Ok && store_view(*final(db)) == store_view(*old(db)),
        doc_is_hex(doc_text(doc@)) ==> !(r matches Err(ToolError::InvalidEncoding)),
        r matches Err(ToolError::InvalidEncoding) ==> exists|j: int|
            0 <= j < doc@.len() && doc_is_hex(#[trigger] doc_text(doc@).take(j)) && ((!is_hex_text(
                doc_text(doc@)[j].0,
            ) && store_view(*final(db)) == doc_imported(store_view(*old(db)), doc_text(doc@).take(j)))
                || (is_hex_text(doc_text(doc@)[j].0) && tree_import_stopped(
                doc_imported(store_view(*old(db)), doc_text(doc@).take(j)),
                bytes_of_hex(doc_text(doc@)[j].0),
                doc_text(doc@)[j].1,
                store_view(*final(db)),
            ))),
        r matches Err(ToolError::Store(_)) ==> exists|j: int|
            0 <= j < doc@.len() && doc_is_hex(#[trigger] doc_text(doc@).take(j)) && is_hex_text(
                doc_text(doc@)[j].0,
            ) && tree_import_failed(
                doc_imported(store_view(*old(db)), doc_text(doc@).take(j)),
                bytes_of_hex(doc_text(doc@)[j].0),
                doc_text(doc@)[j].1,
                store_view(*final(db)),
            ),
        r matches Err(e) ==> e is InvalidEncoding || e.is_store(),
{
    let ghost s0 = store_view(*db);
    let ghost dt = doc_text(doc@);
    let mut i: usize = 0;
    assert(dt.take(0) =~= Seq::empty());
    while i < doc.len()
        invariant
            0 <= i <= doc@.len(),
            dt == doc_text(doc@),
            s0 == store_view(*old(db)),
            doc_is_hex(dt.take(i as int)),
            store_view(*db) == doc_imported(s0, dt.take(i as int)),
        decreases doc@.len() - i,
    {
        proof {
            assert(dt[i as int] == (doc@[i as int].0@, entries_text(doc@[i as int].1@)));
        }
        let name = match from_hex(doc[i].0.as_str()) {
            Ok(n) => n,
            Err(e) => {
                assert(doc_is_hex(dt.take(i as int)) && !is_hex_text(dt[i as int].0));
                return Err(e);
            },
        };
        match import_tree(db, name.as_slice(), &doc[i].1) {
            Ok(()) => {},
            Err(e) => {
                assert(doc_is_hex(dt.take(i as int)));
                return Err(e);
            },
        }
        proof {
            assert(dt.take(i + 1).drop_last() =~= dt.take(i as int));
            assert(dt.take(i + 1).last() == dt[i as int]);
            assert forall|j: int| 0 <= j < i + 1 implies is_hex_text((#[trigger] dt.take(i + 1)[j]).0)
                && entries_are_hex(dt.take(i + 1)[j].1) by {
                if j < i {
                    assert(dt.take(i + 1)[j] == dt.take(i as int)[j]);
                }
            }
        }
        i = i + 1;
    }
    proof {
        assert(dt.take(i as int) =~= dt);
    }
    Ok(())
}

/// The text that export writes for a list of entries.
pub open spec fn encode_entries(s: Seq<(Seq<u8>, Seq<u8>)>) -> Seq<(Seq<char>, Seq<char>)> {
    s.map_values(|e: (Seq<u8>, Seq<u8>)| (hex_of(e.0), hex_of(e.1)))
}

proof fn lemma_pairs_map_lists(s: Seq<(Seq<u8>, Seq<u8>)>, m: Map<Seq<u8>, Seq<u8>>)
    requires
        lists_entries(s, m),
    ensures
        pairs_map(s) == m,
    decreases s.len(),
{
    if s.len() == 0 {
        assert(pairs_map(s) =~= m) by {
            assert forall|k: Seq<u8>| !m.contains_key(k) by {
                if m.contains_key(k) {
                    let i = choose|i: int| 0 <= i < s.len() && s[i].0 == k;
                }
            }
        }
    } else {
        let last = s.last();
        let rest = s.drop_last();
        let m2 = m.remove(last.0);
        assert(lists_entries(rest, m2)) by {
            assert forall|i: int| 0 <= i < rest.len() implies m2.contains_key((#[trigger] rest[i]).0)
                && m2[rest[i].0] == rest[i].1 by {
                assert(s[i] == rest[i]);
                assert(s[i].0 != s[s.len() - 1].0);
            }
            assert forall|k: Seq<u8>| #[trigger] m2.contains_key(k) implies exists|i: int|
                0 <= i < rest.len() && rest[i].0 == k by {
                assert(m.contains_key(k));
                let i = choose|i: int| 0 <= i < s.len() && s[i].0 == k;
                assert(i != s.len() - 1);
                assert(rest[i] == s[i]);
            }
            assert forall|i: int, j: int| 0 <= i < j < rest.len() implies (#[trigger] rest[i]).0 != (
            #[trigger] rest[j]).0 by {
                assert(rest[i] == s[i]);
                assert(rest[j] == s[j]);
            }
        }
        lemma_pairs_map_lists(rest, m2);
        assert(m.contains_key(s[s.len() - 1].0));
        assert(pairs_map(s) =~= m);
    }
}

proof fn lemma_decode_encode_entries(s: Seq<(Seq<u8>, Seq<u8>)>)
    ensures
        entries_are_hex(encode_entries(s)),
        decode_entries(encode_entries(s)) == s,
{
    let t = encode_entries(s);
    assert forall|i: int| 0 <= i < t.len() implies entry_is_hex(#[trigger] t[i]) by {
        lemma_decode_encode(s[i].0);
        lemma_decode_encode(s[i].1);
    }
    assert(decode_entries(t) =~= s) by {
        assert forall|i: int| 0 <= i < s.len() implies #[trigger] decode_entries(t)[i] == s[i] by {
            lemma_decode_encode(s[i].0);
            lemma_decode_encode(s[i].1);
        }
    }
}

/// Export then import: the entries that export writes for a tree, imported
/// into an empty tree, give that tree's entries back, and all of them are
/// hexadecimal text, whatever order they were listed in.
pub proof fn lemma_round_trip(s: Seq<(Seq<u8>, Seq<u8>)>, m: Map<Seq<u8>, Seq<u8>>)
    requires
        lists_entries(s, m),
    ensures
        entries_are_hex(encode_entries(s)),
        Map::<Seq<u8>, Seq<u8>>::empty().union_prefer_right(pairs_map(decode_entries(encode_entries(s))))
            == m,
{
    lemma_decode_encode_entries(s);
    lemma_pairs_map_lists(s, m);
    assert(Map::<Seq<u8>, Seq<u8>>::empty().union_prefer_right(m) =~= m);
}

/// The tree that the `i`-th tree of a document names.
pub open spec fn doc_name(d: Seq<(Seq<char>, Seq<(Seq<char>, Seq<char>)>)>, i: int) -> Seq<u8> {
    bytes_of_hex(d[i].0)
}

/// No two trees of a document name the same tree.
pub open spec fn doc_names_distinct(d: Seq<(Seq<char>, Seq<(Seq<char>, Seq<char>)>)>) -> bool {
    forall|i: int, j: int| 0 <= i < j < d.len() ==> doc_name(d, i) != doc_name(d, j)
}

/// What importing a document whose trees are all distinct does: each tree it
/// names gets its entries over what it held, and every other tree stays.
pub proof fn lemma_doc_imported_distinct(
    s: Map<Seq<u8>, Map<Seq<u8>, Seq<u8>>>,
    d: Seq<(Seq<char>, Seq<(Seq<char>, Seq<char>)>)>,
)
    requires
        doc_names_distinct(d),
    ensures
        forall|i: int|
            0 <= i < d.len() ==> #[trigger] doc_imported(s, d).contains_key(doc_name(d, i)) && doc_imported(
                s,
                d,
            )[doc_name(d, i)] == entries_of(s, doc_name(d, i)).union_prefer_right(
                pairs_map(decode_entries(d[i].1)),
            ),
        forall|n: Seq<u8>|
            (forall|i: int| 0 <= i < d.len() ==> doc_name(d, i) != n) ==> (#[trigger] doc_imported(
                s,
                d,
            ).contains_key(n) == s.contains_key(n) && (s.contains_key(n) ==> doc_imported(s, d)[n] == s[n])),
    decreases d.len(),
{
    if d.len() > 0 {
        let rest = d.drop_last();
        assert forall|i: int, j: int| 0 <= i < j < rest.len() implies doc_name(rest, i) != doc_name(rest, j) by {
            assert(doc_name(rest, i) == doc_name(d, i));
            assert(doc_name(rest, j) == doc_name(d, j));
        }
        lemma_doc_imported_distinct(s, rest);
        let p = doc_imported(s, rest);
        let k = d.len() - 1;
        let n = doc_name(d, k);
        assert forall|i: int| 0 <= i < rest.len() implies doc_name(rest, i) != n by {
            assert(doc_name(rest, i) == doc_name(d, i));
        }
        assert(entries_of(p, n) == entries_of(s, n));
        assert forall|i: int| 0 <= i < d.len() implies #[trigger] doc_imported(s, d).contains_key(
            doc_name(d, i),
        ) && doc_imported(s, d)[doc_name(d, i)] == entries_of(s, doc_name(d, i)).union_prefer_right(
            pairs_map(decode_entries(d[i].1)),
        ) by {
            if i < k {
                assert(doc_name(rest, i) == doc_name(d, i));
                assert(rest[i] == d[i]);
            }
        }
        assert forall|m: Seq<u8>| (forall|i: int| 0 <= i < d.len() ==> doc_name(d, i) != m) implies (
        #[trigger] doc_imported(s, d).contains_key(m) == s.contains_key(m) && (s.contains_key(m)
            ==> doc_imported(s, d)[m] == s[m])) by {
            assert forall|i: int| 0 <= i < rest.len() implies doc_name(rest, i) != m by {
                assert(doc_name(rest, i) == doc_name(d, i));
            }
            assert(doc_name(d, k) != m);
        }
    }
}

/// The text that export writes for a store listed tree by tree.
pub open spec fn encode_document(l: Seq<(Seq<u8>, Seq<(Seq<u8>, Seq<u8>)>)>) -> Seq<(Seq<char>, Seq<(Seq<char>, Seq<char>)>)> {
    l.map_values(|t: (Seq<u8>, Seq<(Seq<u8>, Seq<u8>)>)| (hex_of(t.0), encode_entries(t.1)))
}

/// `l` lists each tree of `s` once, in some order, each with its entries
/// listed once, in some order.
pub open spec fn lists_store(l: Seq<(Seq<u8>, Seq<(Seq<u8>, Seq<u8>)>)>, s: Map<Seq<u8>, Map<Seq<u8>, Seq<u8>>>) -> bool {
    &&& forall|i: int| 0 <= i < l.len() ==> s.contains_key((#[trigger] l[i]).0) && lists_entries(l[i].1, s[l[i].0])
    &&& forall|n: Seq<u8>| #[trigger] s.contains_key(n) ==> exists|i: int| 0 <= i < l.len() && l[i].0 == n
    &&& forall|i: int, j: int| 0 <= i < j < l.len() ==> (#[trigger] l[i]).0 != (#[trigger] l[j]).0
}

/// Export then import of a whole store: the document that export writes for a
/// store, whatever order it lists the trees and entries in, imported into an
/// empty store, gives every tree back with the same entries.
pub proof fn lemma_store_round_trip(l: Seq<(Seq<u8>, Seq<(Seq<u8>, Seq<u8>)>)>, s: Map<Seq<u8>, Map<Seq<u8>, Seq<u8>>>)
    requires
        lists_store(l, s),
    ensures
        doc_is_hex(encode_document(l)),
        doc_imported(Map::empty(), encode_document(l)) == s,
{
    let d = encode_document(l);
    assert forall|i: int| 0 <= i < d.len() implies doc_name(d, i) == l[i].0 && is_hex_text((#[trigger] d[i]).0)
        && entries_are_hex(d[i].1) && decode_entries(d[i].1) == l[i].1 by {
        lemma_decode_encode(l[i].0);
        lemma_decode_encode_entries(l[i].1);
    }
    assert forall|i: int, j: int| 0 <= i < j < d.len() implies doc_name(d, i) != doc_name(d, j) by {
        assert(d[i] == (hex_of(l[i].0), encode_entries(l[i].1)));
        assert(d[j] == (hex_of(l[j].0), encode_entries(l[j].1)));
        assert(doc_name(d, i) == l[i].0);
        assert(doc_name(d, j) == l[j].0);
    }
    let e = Map::<Seq<u8>, Map<Seq<u8>, Seq<u8>>>::empty();
    lemma_doc_imported_distinct(e, d);
    let r = doc_imported(e, d);
    assert forall|n: Seq<u8>| #[trigger] r.contains_key(n) <==> s.contains_key(n) by {
        if s.contains_key(n) {
            let i = choose|i: int| 0 <= i < l.len() && l[i].0 == n;
            assert(doc_name(d, i) == n);
        }
        if r.contains_key(n) && !s.contains_key(n) {
            assert forall|i: int| 0 <= i < d.len() implies doc_name(d, i) != n by {
                assert(doc_name(d, i) == l[i].0);
            }
        }
    }
    assert forall|n: Seq<u8>| #[trigger] s.contains_key(n) implies r[n] == s[n] by {
        let i = choose|i: int| 0 <= i < l.len() && l[i].0 == n;
        assert(doc_name(d, i) == n && is_hex_text(d[i].0));
        assert(decode_entries(d[i].1) == l[i].1);
        assert(s.contains_key(l[i].0) && lists_entries(l[i].1, s[l[i].0]));
        assert(r.contains_key(doc_name(d, i)));
        lemma_pairs_map_lists(l[i].1, s[n]);
        assert(entries_of(e, n).union_prefer_right(s[n]) =~= s[n]);
    }
    assert(r =~= s);
}

/// Importing a document a second time, one whose trees are all distinct,
/// changes nothing more: the store holds what it held after one import.
pub proof fn lemma_store_import_idempotent(
    s: Map<Seq<u8>, Map<Seq<u8>, Seq<u8>>>,
    d: Seq<(Seq<char>, Seq<(Seq<char>, Seq<char>)>)>,
)
    requires
        doc_names_distinct(d),
    ensures
        doc_imported(doc_imported(s, d), d) == doc_imported(s, d),
{
    let t = doc_imported(s, d);
    lemma_doc_imported_distinct(s, d);
    lemma_doc_imported_distinct(t, d);
    let u = doc_imported(t, d);
    assert forall|n: Seq<u8>| #[trigger] u.contains_key(n) == t.contains_key(n) && (u.contains_key(n) ==> u[n] == t[n]) by {
        if exists|i: int| 0 <= i < d.len() && doc_name(d, i) == n {
            let i = choose|i: int| 0 <= i < d.len() && doc_name(d, i) == n;
            let dm = pairs_map(decode_entries(d[i].1));
            assert(u.contains_key(doc_name(d, i)));
            assert(t.contains_key(doc_name(d, i)));
            assert(entries_of(s, n).union_prefer_right(dm).union_prefer_right(dm) =~= entries_of(s, n).union_prefer_right(dm));
        }
    }
    assert(u =~= t);
}

} // verus!
