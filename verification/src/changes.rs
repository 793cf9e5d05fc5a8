//! A write to a text store's document, and the change its subscribers hear
//! of.
//!
//! What stands at a place is compared as the document holds it: two nodes
//! that hold the same are the same write, and a write of what already stands
//! changes nothing and tells nobody.

use crate::declared::{is_entry_of, Declared, PlaceRole};
use crate::format::same_text;
use crate::meta::Role;
use crate::path::is_under;
use crate::document::{a_write_reads_back_and_leaves_the_rest, at, child, delete_at, generic_delete, generic_get, generic_set, set_at, taken_tree, Node, Occupied, Tree};
use crate::levels::{keep_a_declared_level, kept};
use crate::events::StoreOp;
use crate::path::StorePath;
use vstd::prelude::*;

verus! {

/// A change to a document, as its subscribers hear of it.
pub struct DocEvent {
    pub path: StorePath,
    pub op: StoreOp,
    /// What stood there before, if anything.
    pub old: Option<Node>,
    /// What stands there now, if anything.
    pub new: Option<Node>,
    /// Where the change falls in the order the document was changed in.
    pub at: u64,
    /// Whether the change was read off the file rather than made here.
    pub from_disk: bool,
}

/// Writes `node` at `path`, the place the document holds what the caller
/// named `named` at, and says what changed: nothing, where
/// `node` is what already stands there; a write, carrying what stood there and
/// what stands there now; a removal, where the document does not keep what
/// was written and something stood there before. Refused, and nothing
/// touched, where the document refuses the write.
pub fn set_node(doc: &mut Node, path: &StorePath, named: &StorePath, node: Node, order: u64) -> (r: Result<Option<DocEvent>, Occupied>)
    ensures
        at(old(doc).tree(), path@) == Some(node.tree()) ==> (r matches Ok(None) && final(doc).tree() == old(doc).tree()),
        at(old(doc).tree(), path@) != Some(node.tree()) ==> match set_at(old(doc).tree(), path@, 0, node.tree()) {
            Ok(t) => {
                &&& final(doc).tree() == t
                &&& r matches Ok(Some(e))
                &&& e.path@ == named@
                &&& e.op == StoreOp::Put
                &&& taken_tree(e.old) == at(old(doc).tree(), path@)
                &&& taken_tree(e.new) == Some(node.tree())
                &&& e.at == order
                &&& !e.from_disk
            },
            Err(x) => r matches Err(o) && o@ == x && final(doc).tree() == old(doc).tree(),
        },
{
    let old_node: Option<Node> = match generic_get(doc, path) {
        Some(n) => Some(n.copied()),
        None => None,
    };
    let same = match &old_node {
        Some(o) => o.same_tree(&node),
        None => false,
    };
    if same {
        return Ok(None);
    }
    let ghost before = doc.tree();
    let ghost v = node.tree();
    match generic_set(doc, path, node) {
        Err(why) => Err(why),
        Ok(()) => {
            proof {
                a_write_reads_back_and_leaves_the_rest(before, path@, v, path@);
            }
            match generic_get(doc, path) {
                Some(n) => Ok(Some(DocEvent { path: named.copied(), op: StoreOp::Put, old: old_node, new: Some(n.copied()), at: order, from_disk: false })),
                None => match old_node {
                    Some(o) => Ok(Some(DocEvent { path: named.copied(), op: StoreOp::Delete, old: Some(o), new: None, at: order, from_disk: false })),
                    None => Ok(None),
                },
            }
        },
    }
}

/// What a delete did: the change its subscribers hear of, if anything stood
/// there, and the declared map's level it put back, where it put one back
/// after taking something.
pub struct Deleted {
    pub event: Option<DocEvent>,
    pub put_back: Option<StorePath>,
}

/// Takes out what stands at `path`, the place the document holds what the
/// caller named `named` at, with every level this emptied,
/// and puts back, empty, a declared map's level that went with its last entry.
/// A removal is told of only where something stood there. Refused where the
/// level cannot be put back; what was taken stays taken.
pub fn delete_node(doc: &mut Node, declared: &Declared, path: &StorePath, named: &StorePath, order: u64) -> (r: Result<Deleted, Occupied>)
    ensures
        match kept(declared@, delete_at(old(doc).tree(), path@, 0).0, path@) {
            Ok((t, put)) => {
                &&& final(doc).tree() == t
                &&& r matches Ok(d)
                &&& (at(old(doc).tree(), path@) is None ==> d.event is None && d.put_back is None)
                &&& (at(old(doc).tree(), path@) is Some ==> {
                    &&& d.event matches Some(e)
                    &&& e.path@ == named@
                    &&& e.op == StoreOp::Delete
                    &&& taken_tree(e.old) == at(old(doc).tree(), path@)
                    &&& e.new is None
                    &&& e.at == order
                    &&& !e.from_disk
                    &&& match d.put_back {
                        Some(p) => put == Some(p@),
                        None => put is None,
                    }
                })
            },
            Err(x) => r matches Err(o) && o@ == x && final(doc).tree() == delete_at(old(doc).tree(), path@, 0).0,
        },
{
    let ghost before = doc.tree();
    let old_node: Option<Node> = match generic_get(doc, path) {
        Some(n) => Some(n.copied()),
        None => None,
    };
    let _ = generic_delete(doc, path);
    let level = keep_a_declared_level(doc, declared, path);
    match level {
        Err(why) => Err(why),
        Ok(level) => match old_node {
            None => Ok(Deleted { event: None, put_back: None }),
            Some(o) => Ok(Deleted {
                event: Some(DocEvent { path: named.copied(), op: StoreOp::Delete, old: Some(o), new: None, at: order, from_disk: false }),
                put_back: level,
            }),
        },
    }
}

/// Whether a declaration puts `path` in the tree: a declared place lies at or
/// under it, or it is an entry of a declared map.
pub open spec fn declared_covers(d: Seq<PlaceRole>, path: Seq<Seq<char>>) -> bool {
    exists|i: int| 0 <= i < d.len() && (is_under(#[trigger] d[i].0, path)
        || (d[i].1 == Role::Entries && is_entry_of(d[i].0, path)))
}

/// Where a document holds what is named `path`: at `path` itself where it is
/// the root or a declaration puts it in the tree; otherwise as one whole key at
/// the root, under `joined`, the path spelled as one name, except where the
/// path is one level that the file already holds under its bare name and that
/// name spells no path (`bare_is_no_path`).
pub open spec fn address_of(t: Tree, d: Seq<PlaceRole>, path: Seq<Seq<char>>, joined: Seq<char>, bare_is_no_path: bool) -> Seq<Seq<char>> {
    if path.len() == 0 || declared_covers(d, path) {
        path
    } else if child(t, joined) is Some {
        seq![joined]
    } else if path.len() == 1 && path[0] != joined && bare_is_no_path && child(t, path[0]) is Some {
        seq![path[0]]
    } else {
        seq![joined]
    }
}

/// Where `doc` holds what is named `path`; see [`address_of`]. `joined` is
/// the path spelled as one name, and `bare_is_no_path` whether the path's one
/// level, read as a spelling, spells no path.
pub fn levels(doc: &Node, declared: &Declared, path: &StorePath, joined: &str, bare_is_no_path: bool) -> (r: StorePath)
    ensures
        r@ == address_of(doc.tree(), declared@, path@, joined@, bare_is_no_path),
{
    if path.len() == 0 || declared.covers(path) {
        return path.copied();
    }
    if doc.get_child(joined).is_some() {
        return StorePath::segment(joined);
    }
    if path.len() == 1 && !same_text(path.level(0).as_str(), joined) && bare_is_no_path
        && doc.get_child(path.level(0).as_str()).is_some() {
        return StorePath::segment(path.level(0).as_str());
    }
    StorePath::segment(joined)
}

} // verus!
