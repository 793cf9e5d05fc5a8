//! What the declarations say about a path, for the two questions a document
//! cannot answer out of its own file: whether a declaration puts the path in
//! the tree, and what a walk of the tree finds stored at it.

use crate::meta::{entry_trees, field_trees, lemma_entry_trees, FieldDescriptor, Role, StoredFieldEntry, DeclaredTree, field_tree};
use crate::moved::{places_at, places_of, PlaceView};
use crate::path::{is_under, StorePath};
use vstd::prelude::*;

verus! {

/// What a scan finds at a path.
#[derive(Debug, Clone, Copy, PartialEq, Eq, Structural)]
pub enum Holds {
    /// One value, taken whole. Nothing under it is a path.
    Value,
    /// A level, whose contents are paths of their own.
    Level,
}

/// A declared place and what it holds.
pub type PlaceRole = (Seq<Seq<char>>, Role);

/// The declared places, and what each one holds.
#[derive(Debug)]
pub struct Declared {
    places: Vec<(StorePath, Role)>,
}

pub open spec fn role_views(s: Seq<(StorePath, Role)>) -> Seq<PlaceRole> {
    s.map_values(|p: (StorePath, Role)| (p.0@, p.1))
}

impl View for Declared {
    type V = Seq<PlaceRole>;

    closed spec fn view(&self) -> Seq<PlaceRole> {
        role_views(self.places@)
    }
}

/// The places, without what may hold nothing.
pub open spec fn place_roles(s: Seq<PlaceView>) -> Seq<PlaceRole> {
    s.map_values(|p: PlaceView| (p.at, p.role))
}

/// Whether `path` is an entry of a map at `at`: the level below it and
/// nothing further.
pub open spec fn is_entry_of(at: Seq<Seq<char>>, path: Seq<Seq<char>>) -> bool {
    path.len() == at.len() + 1 && is_under(path, at)
}

/// Whether a walk that reaches `path` finds it inside the value declared at
/// `at`: anything at or under a field, anything strictly under a map.
pub open spec fn is_inside(at: Seq<Seq<char>>, role: Role, path: Seq<Seq<char>>) -> bool {
    match role {
        Role::Field => is_under(path, at),
        Role::Entries => path.len() > at.len() && is_under(path, at),
        Role::Node => false,
    }
}

fn entry_of(at: &StorePath, path: &StorePath) -> (b: bool)
    ensures
        b == is_entry_of(at@, path@),
{
    path.len() > 0 && path.len() - 1 == at.len() && path.starts_with(at)
}

impl Declared {
    /// Nothing declared.
    pub fn new() -> (d: Declared)
        ensures
            d@ == Seq::<PlaceRole>::empty(),
    {
        let d = Declared { places: Vec::new() };
        assert(d@ =~= Seq::<PlaceRole>::empty());
        d
    }

    /// The places given, each with what it holds, in the order given.
    pub fn of_places(places: Vec<(StorePath, Role)>) -> (d: Declared)
        ensures
            d@ == role_views(places@),
    {
        Declared { places }
    }

    /// Adds what a set of declared fields at `prefix` owns, after what is
    /// already here.
    pub fn declare(&mut self, prefix: &StorePath, fields: &Vec<FieldDescriptor>)
        ensures
            final(self)@ == old(self)@ + place_roles(places_of(prefix@, field_trees(fields@))),
    {
        let ghost before = self@;
        let mut added: Vec<(StorePath, Role)> = Vec::new();
        from_fields(prefix, fields, &mut added);
        let mut i: usize = 0;
        while i < added.len()
            invariant
                i <= added@.len(),
                role_views(self.places@) == before + role_views(added@).take(i as int),
            decreases added@.len() - i,
        {
            let ghost prev = self.places@;
            self.places.push((added[i].0.copied(), added[i].1));
            assert(role_views(self.places@) =~= role_views(prev).push(role_views(added@)[i as int]));
            assert(role_views(added@).take(i + 1) =~= role_views(added@).take(i as int).push(role_views(added@)[i as int]));
            i = i + 1;
        }
        assert(role_views(added@).take(added@.len() as int) =~= role_views(added@));
    }

    /// Adds what the store recorded under `prefix`, after what is already
    /// here - so [`Declared::holds`], which takes the first match, answers
    /// from what was declared before where the two disagree.
    pub fn record(&mut self, prefix: &StorePath, fields: &Vec<StoredFieldEntry>)
        ensures
            final(self)@ == old(self)@ + place_roles(places_of(prefix@, entry_trees(fields@))),
    {
        let ghost before = self@;
        let mut added: Vec<(StorePath, Role)> = Vec::new();
        from_stored(prefix, fields, &mut added);
        let mut i: usize = 0;
        while i < added.len()
            invariant
                i <= added@.len(),
                role_views(self.places@) == before + role_views(added@).take(i as int),
            decreases added@.len() - i,
        {
            let ghost prev = self.places@;
            self.places.push((added[i].0.copied(), added[i].1));
            assert(role_views(self.places@) =~= role_views(prev).push(role_views(added@)[i as int]));
            assert(role_views(added@).take(i + 1) =~= role_views(added@).take(i as int).push(role_views(added@)[i as int]));
            i = i + 1;
        }
        assert(role_views(added@).take(added@.len() as int) =~= role_views(added@));
    }

    /// The declarations that can bear on a scan under `prefix`: those on the
    /// way to it and those under it.
    pub fn under(&self, prefix: &StorePath) -> (d: Declared)
        ensures
            d@ == self@.filter(|p: PlaceRole| is_under(p.0, prefix@) || is_under(prefix@, p.0)),
    {
        let ghost sv = self@;
        let mut places: Vec<(StorePath, Role)> = Vec::new();
        let mut i: usize = 0;
        assert(sv.take(0).filter(|p: PlaceRole| is_under(p.0, prefix@) || is_under(prefix@, p.0)) =~= Seq::<PlaceRole>::empty());
        while i < self.places.len()
            invariant
                i <= sv.len(),
                sv == self@,
                sv.len() == self.places@.len(),
                role_views(places@) == sv.take(i as int).filter(|p: PlaceRole| is_under(p.0, prefix@) || is_under(prefix@, p.0)),
            decreases sv.len() - i,
        {
            assert(sv.take(i + 1).drop_last() =~= sv.take(i as int));
            assert(sv[i as int] == (self.places@[i as int].0@, self.places@[i as int].1));
            let ghost prev = places@;
            proof {
                reveal_with_fuel(Seq::<PlaceRole>::filter, 1);
                assert(sv.take(i + 1).last() == sv[i as int]);
            }
            if self.places[i].0.overlaps(prefix) {
                places.push((self.places[i].0.copied(), self.places[i].1));
                assert(role_views(places@) =~= role_views(prev).push(sv[i as int]));
            } else {
                assert(role_views(places@) =~= role_views(prev));
            }
            i = i + 1;
        }
        assert(sv.take(sv.len() as int) =~= sv);
        Declared { places }
    }

    /// Whether a declaration puts `path` in the tree: a declared place lies
    /// at or under it, or it is an entry of a declared map.
    pub fn covers(&self, path: &StorePath) -> (b: bool)
        ensures
            b == exists|i: int| 0 <= i < self@.len() && (is_under(#[trigger] self@[i].0, path@)
                || (self@[i].1 == Role::Entries && is_entry_of(self@[i].0, path@))),
    {
        let mut i: usize = 0;
        while i < self.places.len()
            invariant
                i <= self@.len(),
                self@.len() == self.places@.len(),
                forall|j: int| 0 <= j < i ==> !(is_under(#[trigger] self@[j].0, path@)
                    || (self@[j].1 == Role::Entries && is_entry_of(self@[j].0, path@))),
            decreases self@.len() - i,
        {
            let at = &self.places[i].0;
            let role = self.places[i].1;
            assert(self@[i as int] == (at@, role));
            if at.starts_with(path) || (role == Role::Entries && entry_of(at, path)) {
                assert(is_under(self@[i as int].0, path@) || (self@[i as int].1 == Role::Entries && is_entry_of(self@[i as int].0, path@)));
                return true;
            }
            i = i + 1;
        }
        false
    }

    /// Whether a declaration owns `path` as a level of its own: a map
    /// declared there.
    pub fn owns_level(&self, path: &StorePath) -> (b: bool)
        ensures
            b == exists|i: int| 0 <= i < self@.len() && #[trigger] self@[i].1 == Role::Entries && self@[i].0 == path@,
    {
        let mut i: usize = 0;
        while i < self.places.len()
            invariant
                i <= self@.len(),
                self@.len() == self.places@.len(),
                forall|j: int| 0 <= j < i ==> !(#[trigger] self@[j].1 == Role::Entries && self@[j].0 == path@),
            decreases self@.len() - i,
        {
            assert(self@[i as int] == (self.places@[i as int].0@, self.places@[i as int].1));
            if self.places[i].1 == Role::Entries && self.places[i].0.same_as(path) {
                assert(self@[i as int].1 == Role::Entries && self@[i as int].0 == path@);
                return true;
            }
            i = i + 1;
        }
        false
    }

    /// What is stored at `path`: a value where it is inside a declared field
    /// or map entry, a level everywhere else.
    pub fn holds(&self, path: &StorePath) -> (h: Holds)
        ensures
            h == if exists|i: int| 0 <= i < self@.len() && is_inside(#[trigger] self@[i].0, self@[i].1, path@) {
                Holds::Value
            } else {
                Holds::Level
            },
    {
        let mut i: usize = 0;
        while i < self.places.len()
            invariant
                i <= self@.len(),
                self@.len() == self.places@.len(),
                forall|j: int| 0 <= j < i ==> !is_inside(#[trigger] self@[j].0, self@[j].1, path@),
            decreases self@.len() - i,
        {
            let at = &self.places[i].0;
            let role = self.places[i].1;
            assert(self@[i as int] == (at@, role));
            let inside = match role {
                Role::Field => path.starts_with(at),
                Role::Entries => path.len() > at.len() && path.starts_with(at),
                Role::Node => false,
            };
            if inside {
                assert(is_inside(self@[i as int].0, self@[i as int].1, path@));
                return Holds::Value;
            }
            i = i + 1;
        }
        Holds::Level
    }
}

/// Every place a set of declared fields under `at` owns, with its role,
/// appended to `into`.
fn from_fields(at: &StorePath, fields: &Vec<FieldDescriptor>, into: &mut Vec<(StorePath, Role)>)
    ensures
        role_views(final(into)@) == role_views(old(into)@) + place_roles(places_of(at@, field_trees(fields@))),
    decreases fields,
{
    let ghost start = role_views(into@);
    proof {
        crate::meta::lemma_field_trees(fields@);
        assert(field_trees(fields@).take(0) =~= Seq::<DeclaredTree>::empty());
        assert(place_roles(places_of(at@, field_trees(fields@).take(0))) =~= Seq::<PlaceRole>::empty());
        assert(role_views(into@) =~= start + place_roles(places_of(at@, field_trees(fields@).take(0))));
    }
    let mut i: usize = 0;
    while i < fields.len()
        invariant
            i <= fields@.len(),
            field_trees(fields@).len() == fields@.len(),
            forall|j: int| 0 <= j < fields@.len() ==> #[trigger] field_trees(fields@)[j] == field_tree(fields@[j]),
            role_views(into@) == start + place_roles(places_of(at@, field_trees(fields@).take(i as int))),
        decreases fields@.len() - i,
    {
        let field = &fields[i];
        proof {
            assert(field_trees(fields@).take(i + 1).drop_last() =~= field_trees(fields@).take(i as int));
            assert(decreases_to!(fields => fields[i as int]));
        }
        let ghost before = role_views(into@);
        match field.owns(at) {
            Some(owned) => {
                into.push((owned, field.role));
                assert(role_views(into@) =~= before + place_roles(places_at(at@, field_tree(fields@[i as int]))));
            },
            None => {
                let below = field.below(at);
                from_fields(&below, &field.children, into);
                assert(role_views(into@) =~= before + place_roles(places_at(at@, field_tree(fields@[i as int]))));
            },
        }
        i = i + 1;
        proof {
            let t = field_trees(fields@);
            assert(places_of(at@, t.take(i as int)) == places_of(at@, t.take(i - 1)) + places_at(at@, t[i - 1]));
            assert(place_roles(places_of(at@, t.take(i as int))) =~= place_roles(places_of(at@, t.take(i - 1)))
                + place_roles(places_at(at@, t[i - 1])));
        }
    }
    assert(field_trees(fields@).take(fields@.len() as int) =~= field_trees(fields@));
}

/// Every place a recorded list of entries under `at` owns, with its role,
/// appended to `into`.
fn from_stored(at: &StorePath, fields: &Vec<StoredFieldEntry>, into: &mut Vec<(StorePath, Role)>)
    ensures
        role_views(final(into)@) == role_views(old(into)@) + place_roles(places_of(at@, entry_trees(fields@))),
    decreases fields,
{
    let ghost start = role_views(into@);
    proof {
        lemma_entry_trees(fields@);
        assert(entry_trees(fields@).take(0) =~= Seq::<DeclaredTree>::empty());
        assert(place_roles(places_of(at@, entry_trees(fields@).take(0))) =~= Seq::<PlaceRole>::empty());
        assert(role_views(into@) =~= start + place_roles(places_of(at@, entry_trees(fields@).take(0))));
    }
    let mut i: usize = 0;
    while i < fields.len()
        invariant
            i <= fields@.len(),
            entry_trees(fields@).len() == fields@.len(),
            forall|j: int| 0 <= j < fields@.len() ==> #[trigger] entry_trees(fields@)[j] == crate::meta::entry_tree(fields@[j]),
            role_views(into@) == start + place_roles(places_of(at@, entry_trees(fields@).take(i as int))),
        decreases fields@.len() - i,
    {
        let field = &fields[i];
        proof {
            assert(entry_trees(fields@).take(i + 1).drop_last() =~= entry_trees(fields@).take(i as int));
            assert(decreases_to!(fields => fields[i as int]));
        }
        let ghost before = role_views(into@);
        match field.shape.role {
            Role::Node => {
                let below = if field.shape.flattened { at.copied() } else { at.join(&field.name) };
                from_stored(&below, &field.shape.children, into);
                assert(role_views(into@) =~= before + place_roles(places_at(at@, crate::meta::entry_tree(fields@[i as int]))));
            },
            role => {
                into.push((at.join(&field.name), role));
                assert(role_views(into@) =~= before + place_roles(places_at(at@, crate::meta::entry_tree(fields@[i as int]))));
            },
        }
        i = i + 1;
        proof {
            let t = entry_trees(fields@);
            assert(places_of(at@, t.take(i as int)) == places_of(at@, t.take(i - 1)) + places_at(at@, t[i - 1]));
            assert(place_roles(places_of(at@, t.take(i as int))) =~= place_roles(places_of(at@, t.take(i - 1)))
                + place_roles(places_at(at@, t[i - 1])));
        }
    }
    assert(entry_trees(fields@).take(fields@.len() as int) =~= entry_trees(fields@));
}


/// How a path meets what a schema declared.
#[derive(Debug, PartialEq, Eq)]
pub enum Collision {
    /// The path is a declared one, or lies inside one.
    Owned(StorePath),
    /// A declared path lies under this one, so a value here would take the
    /// level those paths live on.
    Holds(StorePath),
}

pub enum CollisionView {
    Owned(Seq<Seq<char>>),
    Holds(Seq<Seq<char>>),
}

impl View for Collision {
    type V = CollisionView;

    open spec fn view(&self) -> CollisionView {
        match self {
            Collision::Owned(p) => CollisionView::Owned(p@),
            Collision::Holds(p) => CollisionView::Holds(p@),
        }
    }
}

/// How `path` meets one owned place, if it does.
pub open spec fn meets_place(owned: Seq<Seq<char>>, path: Seq<Seq<char>>) -> Option<CollisionView> {
    if is_under(owned, path) && owned != path {
        Some(CollisionView::Holds(owned))
    } else if is_under(path, owned) {
        Some(CollisionView::Owned(owned))
    } else {
        None
    }
}

/// The first of the places from `k` on that `path` meets, and how.
pub open spec fn first_meeting(ps: Seq<PlaceView>, path: Seq<Seq<char>>, k: int) -> Option<CollisionView>
    decreases ps.len() - k,
{
    if k < 0 || k >= ps.len() {
        None
    } else if meets_place(ps[k].at, path) is Some {
        meets_place(ps[k].at, path)
    } else {
        first_meeting(ps, path, k + 1)
    }
}

proof fn lemma_first_meeting_concat(a: Seq<PlaceView>, b: Seq<PlaceView>, path: Seq<Seq<char>>, k: int)
    requires
        0 <= k <= a.len(),
    ensures
        first_meeting(a + b, path, k) == if first_meeting(a, path, k) is Some {
            first_meeting(a, path, k)
        } else {
            first_meeting(b, path, 0)
        },
    decreases a.len() - k,
{
    if k < a.len() {
        lemma_first_meeting_concat(a, b, path, k + 1);
        assert((a + b)[k] == a[k]);
    } else {
        lemma_first_meeting_shift(a, b, path, 0);
    }
}

proof fn lemma_first_meeting_shift(a: Seq<PlaceView>, b: Seq<PlaceView>, path: Seq<Seq<char>>, k: int)
    requires
        0 <= k <= b.len(),
    ensures
        first_meeting(a + b, path, a.len() + k) == first_meeting(b, path, k),
    decreases b.len() - k,
{
    if k < b.len() {
        lemma_first_meeting_shift(a, b, path, k + 1);
        assert((a + b)[a.len() + k] == b[k]);
    }
}

/// The places of a list of trees, taken in two parts, are the places of each
/// part in turn.
pub proof fn lemma_places_of_concat(under: Seq<Seq<char>>, a: Seq<DeclaredTree>, b: Seq<DeclaredTree>)
    ensures
        places_of(under, a + b) == places_of(under, a) + places_of(under, b),
    decreases b.len(),
{
    if b.len() == 0 {
        assert(a + b =~= a);
        assert(places_of(under, b) =~= Seq::<PlaceView>::empty());
        assert(places_of(under, a) + places_of(under, b) =~= places_of(under, a));
    } else {
        lemma_places_of_concat(under, a, b.drop_last());
        assert((a + b).drop_last() =~= a + b.drop_last());
        assert((a + b)[(a + b).len() - 1] == b[b.len() - 1]);
    }
}

fn collision_walk(at: &StorePath, fields: &Vec<FieldDescriptor>, path: &StorePath) -> (r: Option<Collision>)
    ensures
        match r {
            Some(c) => first_meeting(places_of(at@, field_trees(fields@)), path@, 0) == Some(c@),
            None => first_meeting(places_of(at@, field_trees(fields@)), path@, 0) is None,
        },
    decreases fields,
{
    let ghost t = field_trees(fields@);
    proof {
        crate::meta::lemma_field_trees(fields@);
        assert(t.take(0) =~= Seq::<DeclaredTree>::empty());
    }
    let mut i: usize = 0;
    while i < fields.len()
        invariant
            i <= fields@.len(),
            t == field_trees(fields@),
            t.len() == fields@.len(),
            forall|j: int| 0 <= j < fields@.len() ==> #[trigger] t[j] == field_tree(fields@[j]),
            first_meeting(places_of(at@, t.take(i as int)), path@, 0) is None,
        decreases fields@.len() - i,
    {
        let field = &fields[i];
        proof {
            assert(t.take(i + 1).drop_last() =~= t.take(i as int));
            assert(decreases_to!(fields => fields[i as int]));
            lemma_first_meeting_concat(places_of(at@, t.take(i as int)), places_at(at@, t[i as int]), path@, 0);
            lemma_places_of_concat(at@, t.take(i + 1), t.skip(i + 1));
            assert(t.take(i + 1) + t.skip(i + 1) =~= t);
            lemma_first_meeting_concat(places_of(at@, t.take(i + 1)), places_of(at@, t.skip(i + 1)), path@, 0);
        }
        match field.owns(at) {
            Some(owned) => {
                proof {
                    assert(places_at(at@, t[i as int]) =~= seq![PlaceView { at: owned@, role: field.role, optional: field.optional }]);
                    assert(first_meeting(places_at(at@, t[i as int]), path@, 1) is None);
                }
                if owned.starts_with(path) && !owned.same_as(path) {
                    return Some(Collision::Holds(owned));
                }
                if path.starts_with(&owned) {
                    return Some(Collision::Owned(owned));
                }
            },
            None => {
                let below = field.below(at);
                let found = collision_walk(&below, &field.children, path);
                if found.is_some() {
                    return found;
                }
            },
        }
        i = i + 1;
    }
    proof {
        assert(t.take(fields@.len() as int) =~= t);
    }
    None
}

/// How `path` meets the places a schema declared under `at`, if it meets
/// them at all: the first place, in declaration order, that lies under it
/// (a collision that holds) or that it lies at or under (one it is owned by).
pub fn collision(at: &StorePath, fields: &Vec<FieldDescriptor>, path: &StorePath) -> (r: Option<Collision>)
    ensures
        match r {
            Some(c) => first_meeting(places_of(at@, field_trees(fields@)), path@, 0) == Some(c@),
            None => first_meeting(places_of(at@, field_trees(fields@)), path@, 0) is None,
        },
{
    collision_walk(at, fields, path)
}

/// Every path under `under` that a construction of the trees marks as seeded:
/// each node's own path where it lends a segment, after what is under it, and
/// each map's path.
pub open spec fn seeded_of(under: Seq<Seq<char>>, trees: Seq<DeclaredTree>) -> Seq<Seq<Seq<char>>>
    decreases trees,
{
    if trees.len() == 0 {
        Seq::empty()
    } else {
        seeded_of(under, trees.drop_last()) + seeded_at(under, trees[trees.len() - 1])
    }
}

pub open spec fn seeded_at(under: Seq<Seq<char>>, t: DeclaredTree) -> Seq<Seq<Seq<char>>>
    decreases t,
{
    match t.role {
        Role::Node => {
            let below = if t.flattened { under } else { under + t.name };
            seeded_of(below, t.children) + if below != under { seq![below] } else { Seq::empty() }
        },
        Role::Entries => seq![under + t.name],
        Role::Field => Seq::empty(),
    }
}

pub open spec fn path_views(s: Seq<StorePath>) -> Seq<Seq<Seq<char>>> {
    s.map_values(|p: StorePath| p@)
}

fn collect_seeded(at: &StorePath, fields: &Vec<FieldDescriptor>, found: &mut Vec<StorePath>)
    ensures
        path_views(final(found)@) == path_views(old(found)@) + seeded_of(at@, field_trees(fields@)),
    decreases fields,
{
    let ghost start = path_views(found@);
    let ghost t = field_trees(fields@);
    proof {
        crate::meta::lemma_field_trees(fields@);
        assert(t.take(0) =~= Seq::<DeclaredTree>::empty());
        assert(path_views(found@) =~= start + seeded_of(at@, t.take(0)));
    }
    let mut i: usize = 0;
    while i < fields.len()
        invariant
            i <= fields@.len(),
            t == field_trees(fields@),
            t.len() == fields@.len(),
            forall|j: int| 0 <= j < fields@.len() ==> #[trigger] t[j] == field_tree(fields@[j]),
            path_views(found@) == start + seeded_of(at@, t.take(i as int)),
        decreases fields@.len() - i,
    {
        let field = &fields[i];
        proof {
            assert(t.take(i + 1).drop_last() =~= t.take(i as int));
            assert(decreases_to!(fields => fields[i as int]));
        }
        let ghost before = path_views(found@);
        match field.role {
            Role::Node => {
                let below = field.below(at);
                collect_seeded(&below, &field.children, found);
                if !below.same_as(at) {
                    let ghost mid = path_views(found@);
                    found.push(below);
                    assert(path_views(found@) =~= mid.push(below@));
                }
                assert(path_views(found@) =~= before + seeded_at(at@, t[i as int]));
            },
            Role::Entries => {
                found.push(at.join(&field.name));
                assert(path_views(found@) =~= before + seeded_at(at@, t[i as int]));
            },
            Role::Field => {
                assert(path_views(found@) =~= before + seeded_at(at@, t[i as int]));
            },
        }
        i = i + 1;
        assert(path_views(found@) =~= start + seeded_of(at@, t.take(i as int)));
    }
    assert(t.take(fields@.len() as int) =~= t);
}

/// Every namespace a struct declared at `prefix` marks as seeded: the prefix,
/// and then each node and map under it.
pub fn seeded_namespaces(prefix: &StorePath, fields: &Vec<FieldDescriptor>) -> (r: Vec<StorePath>)
    ensures
        path_views(r@) == seq![prefix@] + seeded_of(prefix@, field_trees(fields@)),
{
    let mut found: Vec<StorePath> = Vec::new();
    found.push(prefix.copied());
    assert(path_views(found@) =~= seq![prefix@]);
    collect_seeded(prefix, fields, &mut found);
    found
}

} // verus!
