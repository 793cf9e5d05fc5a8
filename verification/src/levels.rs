//! What a delete leaves of a declared map's own level.
//!
//! A document drops a level nothing is left in, which is right for a level
//! that stood only to hold what was deleted. A declared map is not that: its
//! level is the map, and whether it stands is how a store that lost its
//! bookkeeping tells a map somebody emptied from one never written at all.

use crate::declared::{Declared, PlaceRole};
use crate::document::{a_write_reads_back_and_leaves_the_rest, at, generic_get, generic_set, set_at, Node, Occupied, OccupiedView, Tree};
use crate::meta::Role;
use crate::path::StorePath;
use vstd::prelude::*;

verus! {

/// Whether a map is declared at `level`.
pub open spec fn owns(d: Seq<PlaceRole>, level: Seq<Seq<char>>) -> bool {
    exists|i: int| 0 <= i < d.len() && #[trigger] d[i].1 == Role::Entries && d[i].0 == level
}

/// Whether the level above `path` is a declared map that the document no
/// longer holds.
pub open spec fn has_to_put_back(d: Seq<PlaceRole>, t: Tree, path: Seq<Seq<char>>) -> bool {
    path.len() > 0 && owns(d, path.drop_last()) && at(t, path.drop_last()) is None
}

/// What putting a declared map's level back leaves, and which level it put
/// back: nothing to do, the level written empty, or the write refused.
pub open spec fn kept(d: Seq<PlaceRole>, t: Tree, path: Seq<Seq<char>>) -> Result<(Tree, Option<Seq<Seq<char>>>), OccupiedView> {
    if !has_to_put_back(d, t, path) {
        Ok((t, None))
    } else {
        match set_at(t, path.drop_last(), 0, Tree::Level(Seq::empty())) {
            Ok(put) => Ok((put, Some(path.drop_last()))),
            Err(e) => Err(e),
        }
    }
}

/// Puts back, empty, the level of a declared map that a delete at `path` took
/// away with its last entry, and says which level it put back so that it can
/// be recorded as written. Nothing is done where the level above `path` is not
/// a declared map or still stands.
pub fn keep_a_declared_level(doc: &mut Node, declared: &Declared, path: &StorePath) -> (r: Result<Option<StorePath>, Occupied>)
    ensures
        match kept(declared@, old(doc).tree(), path@) {
            Ok((t, put)) => r is Ok && final(doc).tree() == t && match r {
                Ok(Some(p)) => put == Some(p@),
                _ => put is None,
            },
            Err(e) => r matches Err(o) && o@ == e && final(doc).tree() == old(doc).tree(),
        },
{
    let level = match path.parent() {
        Some(level) => level,
        None => return Ok(None),
    };
    if !declared.owns_level(&level) {
        return Ok(None);
    }
    if generic_get(doc, &level).is_some() {
        return Ok(None);
    }
    let empty = Node::empty_level();
    match generic_set(doc, &level, empty) {
        Ok(()) => Ok(Some(level)),
        Err(why) => Err(why),
    }
}

/// A declared map's level stands after a delete whose level was put back,
/// unless a value on the way refused the write.
pub proof fn a_declared_map_outlives_its_last_entry(d: Seq<PlaceRole>, t: Tree, path: Seq<Seq<char>>)
    requires
        path.len() > 0,
        owns(d, path.drop_last()),
        kept(d, t, path) is Ok,
    ensures
        at((kept(d, t, path)->Ok_0).0, path.drop_last()) is Some,
{
    if has_to_put_back(d, t, path) {
        a_write_reads_back_and_leaves_the_rest(t, path.drop_last(), Tree::Level(Seq::empty()), path.drop_last());
    }
}

} // verus!
