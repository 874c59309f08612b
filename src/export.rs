//! The export document: one JSON object whose keys are the hexadecimal tree
//! names, each mapped to an object from hexadecimal key to hexadecimal value.
//! It is written piece by piece, so that a tree never has to be held whole.
use vstd::prelude::*;
use crate::error::ToolError;
use crate::hexcodec::{encode_hex, hex_of};
use crate::store::{
    ascending, db_iter, db_tree_names, iter_next, iter_view, key_views, lists_entries, store_view,
};

verus! {

/// The text that opens the document.
pub open spec fn document_open_text() -> Seq<char> {
    seq!['{', '\n']
}

/// The text that closes the document.
pub open spec fn document_close_text() -> Seq<char> {
    seq!['}', '\n']
}

/// The text that closes the object of one tree.
pub open spec fn tree_close_text() -> Seq<char> {
    seq![' ', '}', '\n']
}

/// The line that opens the object of the tree `name`, the `index`-th tree of
/// the document: every tree after the first is set off by a comma.
pub open spec fn tree_header_text(index: int, name: Seq<u8>) -> Seq<char> {
    (if index > 0 { seq![','] } else { seq![' '] }) + seq!['"'] + hex_of(name) + seq!['"', ':', '{', '\n']
}

/// The line of the `index`-th entry of a tree: every entry after the first is
/// set off by a comma.
pub open spec fn entry_line_text(index: int, key: Seq<u8>, value: Seq<u8>) -> Seq<char> {
    (if index > 0 { seq![' ', ','] } else { seq![' ', ' '] }) + seq!['"'] + hex_of(key) + seq![
        '"',
        ':',
        ' ',
        '"',
    ] + hex_of(value) + seq!['"', '\n']
}

/// The lines of the entries of one tree, in the order given.
pub open spec fn entry_lines_text(s: Seq<(Seq<u8>, Seq<u8>)>) -> Seq<char>
    decreases s.len(),
{
    if s.len() == 0 {
        Seq::empty()
    } else {
        entry_lines_text(s.drop_last()) + entry_line_text(s.len() - 1, s.last().0, s.last().1)
    }
}

/// The object of the `index`-th tree of the document.
pub open spec fn tree_block_text(index: int, name: Seq<u8>, s: Seq<(Seq<u8>, Seq<u8>)>) -> Seq<char> {
    tree_header_text(index, name) + entry_lines_text(s) + tree_close_text()
}

/// The objects of the trees of a document, in the order given.
pub open spec fn tree_blocks_text(t: Seq<(Seq<u8>, Seq<(Seq<u8>, Seq<u8>)>)>) -> Seq<char>
    decreases t.len(),
{
    if t.len() == 0 {
        Seq::empty()
    } else {
        tree_blocks_text(t.drop_last()) + tree_block_text(t.len() - 1, t.last().0, t.last().1)
    }
}

/// The whole document for trees given by name and entries.
pub open spec fn document_text(t: Seq<(Seq<u8>, Seq<(Seq<u8>, Seq<u8>)>)>) -> Seq<char> {
    document_open_text() + tree_blocks_text(t) + document_close_text()
}

/// The bytes of a list of entries.
pub open spec fn entries_view(s: Seq<(Vec<u8>, Vec<u8>)>) -> Seq<(Seq<u8>, Seq<u8>)> {
    s.map_values(|e: (Vec<u8>, Vec<u8>)| (e.0@, e.1@))
}

/// The bytes of a list of trees.
pub open spec fn trees_view(t: Seq<(Vec<u8>, Vec<(Vec<u8>, Vec<u8>)>)>) -> Seq<(Seq<u8>, Seq<(Seq<u8>, Seq<u8>)>)> {
    t.map_values(|e: (Vec<u8>, Vec<(Vec<u8>, Vec<u8>)>)| (e.0@, entries_view(e.1@)))
}

/// The text that opens the document.
pub fn document_open() -> (r: String)
    ensures
        r@ == document_open_text(),
{
    let r = String::from_str("{\n");
    proof {
        reveal_strlit("{\n");
    }
    assert(r@ =~= document_open_text());
    r
}

/// The text that closes the document.
pub fn document_close() -> (r: String)
    ensures
        r@ == document_close_text(),
{
    let r = String::from_str("}\n");
    proof {
        reveal_strlit("}\n");
    }
    assert(r@ =~= document_close_text());
    r
}

/// The text that closes the object of one tree.
pub fn tree_close() -> (r: String)
    ensures
        r@ == tree_close_text(),
{
    let r = String::from_str(" }\n");
    proof {
        reveal_strlit(" }\n");
    }
    assert(r@ =~= tree_close_text());
    r
}

/// The line that opens the object of the `index`-th tree, named `name`.
pub fn tree_header(index: usize, name: &[u8]) -> (r: String)
    ensures
        r@ == tree_header_text(index as int, name@),
{
    let mut r = if index > 0 {
        String::from_str(",\"")
    } else {
        String::from_str(" \"")
    };
    let h = encode_hex(name);
    r.append(h.as_str());
    r.append("\":{\n");
    proof {
        reveal_strlit(",\"");
        reveal_strlit(" \"");
        reveal_strlit("\":{\n");
    }
    assert(r@ =~= tree_header_text(index as int, name@));
    r
}

/// The line of the `index`-th entry of a tree.
pub fn entry_line(index: usize, key: &[u8], value: &[u8]) -> (r: String)
    ensures
        r@ == entry_line_text(index as int, key@, value@),
{
    let mut r = if index > 0 {
        String::from_str(" ,\"")
    } else {
        String::from_str("  \"")
    };
    let hk = encode_hex(key);
    let hv = encode_hex(value);
    r.append(hk.as_str());
    r.append("\": \"");
    r.append(hv.as_str());
    r.append("\"\n");
    proof {
        reveal_strlit(" ,\"");
        reveal_strlit("  \"");
        reveal_strlit("\": \"");
        reveal_strlit("\"\n");
    }
    assert(r@ =~= entry_line_text(index as int, key@, value@));
    r
}

/// The object of the `index`-th tree, with its entries in the order given.
pub fn tree_block(index: usize, name: &[u8], entries: &Vec<(Vec<u8>, Vec<u8>)>) -> (r: String)
    ensures
        r@ == tree_block_text(index as int, name@, entries_view(entries@)),
{
    let ghost ev = entries_view(entries@);
    let mut r = tree_header(index, name);
    let mut i: usize = 0;
    while i < entries.len()
        invariant
            0 <= i <= entries@.len(),
            ev == entries_view(entries@),
            r@ == tree_header_text(index as int, name@) + entry_lines_text(ev.take(i as int)),
        decreases entries@.len() - i,
    {
        let line = entry_line(i, entries[i].0.as_slice(), entries[i].1.as_slice());
        r.append(line.as_str());
        proof {
            assert(ev.take(i + 1).drop_last() =~= ev.take(i as int));
            assert(ev.take(i + 1).last() == ev[i as int]);
        }
        i = i + 1;
        assert(r@ =~= tree_header_text(index as int, name@) + entry_lines_text(ev.take(i as int)));
    }
    assert(ev.take(i as int) =~= ev);
    let c = tree_close();
    r.append(c.as_str());
    r
}

/// The whole document for trees given by name and entries, in the order given.
pub fn export_document(trees: &Vec<(Vec<u8>, Vec<(Vec<u8>, Vec<u8>)>)>) -> (r: String)
    ensures
        r@ == document_text(trees_view(trees@)),
{
    let ghost tv = trees_view(trees@);
    let mut r = document_open();
    let mut i: usize = 0;
    while i < trees.len()
        invariant
            0 <= i <= trees@.len(),
            tv == trees_view(trees@),
            r@ == document_open_text() + tree_blocks_text(tv.take(i as int)),
        decreases trees@.len() - i,
    {
        let block = tree_block(i, trees[i].0.as_slice(), &trees[i].1);
        r.append(block.as_str());
        proof {
            assert(tv.take(i + 1).drop_last() =~= tv.take(i as int));
            assert(tv.take(i + 1).last() == tv[i as int]);
        }
        i = i + 1;
        assert(r@ =~= document_open_text() + tree_blocks_text(tv.take(i as int)));
    }
    assert(tv.take(i as int) =~= tv);
    let c = document_close();
    r.append(c.as_str());
    r
}

/// The names of the trees of the store, each once.
pub fn tree_names(db: &sled::Db) -> (r: Vec<Vec<u8>>)
    ensures
        key_views(r@).no_duplicates(),
        key_views(r@).to_set() == store_view(*db).dom(),
{
    db_tree_names(db)
}

/// The export of one tree, a line at a time: it walks the tree's entries in
/// ascending key order and hands out the line of each. It borrows the store,
/// so that nothing writes to it while the walk goes on.
pub struct TreeExport<'a> {
    db: &'a sled::Db,
    iter: sled::Iter,
    started: bool,
    listed: Ghost<Seq<(Seq<u8>, Seq<u8>)>>,
    emitted: Ghost<nat>,
}

impl<'a> TreeExport<'a> {
    /// Every entry of the tree, in the order the lines list them.
    pub closed spec fn entries(&self) -> Seq<(Seq<u8>, Seq<u8>)> {
        self.listed@
    }

    /// How many lines have been handed out.
    pub closed spec fn emitted(&self) -> nat {
        self.emitted@
    }

    /// The entries not yet handed out are the rest of the list.
    pub closed spec fn wf(&self) -> bool {
        &&& self.emitted@ <= self.listed@.len()
        &&& self.started == (self.emitted@ > 0)
        &&& iter_view(self.iter) == self.listed@.skip(self.emitted@ as int)
    }

    /// The store that is exported.
    pub closed spec fn store(&self) -> sled::Db {
        *self.db
    }

    /// Starts the export of the tree `name`, one of the store's trees.
    pub fn new(db: &'a sled::Db, name: &[u8]) -> (r: Result<Self, ToolError>)
        requires
            store_view(*db).contains_key(name@),
        ensures
            r matches Ok(x) ==> x.wf() && x.emitted() == 0 && x.store() == *db && lists_entries(
                x.entries(),
                store_view(*db)[name@],
            ) && ascending(x.entries()),
            r matches Err(e) ==> e.is_store(),
    {
        let iter = match db_iter(db, name) {
            Ok(it) => it,
            Err(e) => return Err(ToolError::Store(e)),
        };
        let ghost listed = iter_view(iter);
        let r = TreeExport { db, iter, started: false, listed: Ghost(listed), emitted: Ghost(0) };
        assert(listed.skip(0) =~= listed);
        Ok(r)
    }

    /// The line of the next entry, or `None` once every entry has had one.
    pub fn next_line(&mut self) -> (r: Result<Option<String>, ToolError>)
        requires
            old(self).wf(),
        ensures
            final(self).entries() == old(self).entries(),
            final(self).store() == old(self).store(),
            r matches Err(e) ==> e.is_store(),
            r is Ok ==> final(self).wf(),
            r matches Ok(None) ==> old(self).emitted() == old(self).entries().len() && final(self).emitted()
                == old(self).emitted(),
            r matches Ok(Some(l)) ==> old(self).emitted() < old(self).entries().len() && final(self).emitted()
                == old(self).emitted() + 1 && l@ == entry_line_text(
                old(self).emitted() as int,
                old(self).entries()[old(self).emitted() as int].0,
                old(self).entries()[old(self).emitted() as int].1,
            ),
    {
        match iter_next(&mut self.iter) {
            None => {
                assert(iter_view(self.iter) =~= self.listed@.skip(self.emitted@ as int));
                Ok(None)
            },
            Some(Err(e)) => Err(ToolError::Store(e)),
            Some(Ok(e)) => {
                let ghost n = self.emitted@;
                let index: usize = if self.started {
                    1
                } else {
                    0
                };
                let line = entry_line(index, e.0.as_slice(), e.1.as_slice());
                self.started = true;
                self.emitted = Ghost(n + 1);
                proof {
                    assert(self.listed@.skip(n as int)[0] == self.listed@[n as int]);
                    assert(self.listed@.skip(n as int).drop_first() =~= self.listed@.skip(n + 1 as int));
                    assert(entry_line_text(index as int, e.0@, e.1@) =~= entry_line_text(n as int, e.0@, e.1@));
                }
                Ok(Some(line))
            },
        }
    }
}

} // verus!
