//! What changed between the places a struct declared last time and the places
//! it declares now.
//!
//! The comparison is over the tree of declared places and nothing else: both
//! sides are read down to the places they own - a leaf and a map are places,
//! a node is the way to them and a flattened node is not even a segment on
//! the way - and compared there, path against path.

use crate::meta::{
    entry_tree, entry_trees, field_tree, field_trees, lemma_entry_trees, lemma_field_trees,
    DeclaredTree, FieldDescriptor, Role, SchemaSnapshot, StoredFieldEntry, snapshot_says,
};
use crate::path::StorePath;
use vstd::prelude::*;

verus! {

/// A place a declaration owns, and what stands at it.
pub struct PlaceView {
    pub at: Seq<Seq<char>>,
    pub role: Role,
    pub optional: bool,
}

/// Every place the trees own under `under`, in the order they are declared.
pub open spec fn places_of(under: Seq<Seq<char>>, trees: Seq<DeclaredTree>) -> Seq<PlaceView>
    decreases trees,
{
    if trees.len() == 0 {
        Seq::empty()
    } else {
        places_of(under, trees.drop_last()) + places_at(under, trees[trees.len() - 1])
    }
}

/// The places one tree owns under `under`: its own path for a leaf or a map,
/// what is beneath it for a node.
pub open spec fn places_at(under: Seq<Seq<char>>, t: DeclaredTree) -> Seq<PlaceView>
    decreases t,
{
    if t.role == Role::Node {
        places_of(if t.flattened { under } else { under + t.name }, t.children)
    } else {
        seq![PlaceView { at: under + t.name, role: t.role, optional: t.optional }]
    }
}

/// The places a recorded list of entries owns, from the root.
pub open spec fn stored_places(fields: Seq<StoredFieldEntry>) -> Seq<PlaceView> {
    places_of(Seq::empty(), entry_trees(fields))
}

/// The places a list of declared fields owns, from the root.
pub open spec fn declared_places(fields: Seq<FieldDescriptor>) -> Seq<PlaceView> {
    places_of(Seq::empty(), field_trees(fields))
}

/// One difference between the two trees.
#[derive(Debug, Clone, PartialEq, Eq)]
pub struct Moved {
    /// Where it is, under the struct's prefix.
    pub at: StorePath,
    pub what: What,
}

#[derive(Debug, Clone, Copy, PartialEq, Eq, Structural)]
pub enum What {
    /// A place nothing declared before. It takes the subtree beneath it.
    Taken,
    /// A place that was declared and is not any more.
    Released,
    /// The same place, holding a different kind of thing.
    Role { was: Role, now: Role },
    /// A place that may now hold nothing where it could not, or the reverse.
    Optional { now: bool },
}

pub struct MovedView {
    pub at: Seq<Seq<char>>,
    pub what: What,
}

impl View for Moved {
    type V = MovedView;

    open spec fn view(&self) -> MovedView {
        MovedView { at: self.at@, what: self.what }
    }
}

pub open spec fn moved_views(s: Seq<Moved>) -> Seq<MovedView> {
    s.map_values(|m: Moved| m@)
}

/// What one difference amounts to.
#[derive(Debug, Clone, Copy, PartialEq, Eq, Structural)]
pub enum Verdict {
    /// Data written by the old declaration is not under the new one.
    Breaks,
    /// A place was taken that nothing declared before; whether that matters
    /// depends on whether anything is there.
    LookAtTheGround,
    /// The places are where they were.
    Harmless,
}

pub open spec fn verdict_of(what: What) -> Verdict {
    match what {
        What::Released | What::Role { .. } => Verdict::Breaks,
        What::Taken => Verdict::LookAtTheGround,
        What::Optional { .. } => Verdict::Harmless,
    }
}

impl Moved {
    pub fn verdict(&self) -> (v: Verdict)
        ensures
            v == verdict_of(self.what),
    {
        match self.what {
            What::Released | What::Role { .. } => Verdict::Breaks,
            What::Taken => Verdict::LookAtTheGround,
            What::Optional { .. } => Verdict::Harmless,
        }
    }
}

/// The matching of old places against new ones, part way through: which new
/// places have been met, and what has been found so far.
pub struct Matching {
    pub met: Seq<bool>,
    pub found: Seq<MovedView>,
}

/// The first new place at or after `k` that is still unmet and sits at `at`,
/// or -1.
pub open spec fn free_match(after: Seq<PlaceView>, met: Seq<bool>, at: Seq<Seq<char>>, k: int) -> int
    decreases after.len() - k,
{
    if k < 0 || k >= after.len() {
        -1
    } else if !met[k] && after[k].at == at {
        k
    } else {
        free_match(after, met, at, k + 1)
    }
}

/// One old place met against the new ones.
pub open spec fn meet_one(after: Seq<PlaceView>, st: Matching, old: PlaceView) -> Matching {
    let i = free_match(after, st.met, old.at, 0);
    if i < 0 {
        Matching { met: st.met, found: st.found.push(MovedView { at: old.at, what: What::Released }) }
    } else {
        let new = after[i];
        let f1 = if old.role != new.role {
            st.found.push(MovedView { at: old.at, what: What::Role { was: old.role, now: new.role } })
        } else {
            st.found
        };
        let f2 = if old.optional != new.optional {
            f1.push(MovedView { at: old.at, what: What::Optional { now: new.optional } })
        } else {
            f1
        };
        Matching { met: st.met.update(i, true), found: f2 }
    }
}

/// Every old place met against the new ones, in order.
pub open spec fn meet_all(after: Seq<PlaceView>, before: Seq<PlaceView>) -> Matching
    decreases before.len(),
{
    if before.len() == 0 {
        Matching { met: Seq::new(after.len(), |i: int| false), found: Seq::empty() }
    } else {
        meet_one(after, meet_all(after, before.drop_last()), before[before.len() - 1])
    }
}

/// The new places among the first `k` that nothing met, each one taken.
pub open spec fn unmet(after: Seq<PlaceView>, met: Seq<bool>, k: int) -> Seq<MovedView>
    decreases k,
{
    if k <= 0 {
        Seq::empty()
    } else {
        unmet(after, met, k - 1) + if met[k - 1] {
            Seq::<MovedView>::empty()
        } else {
            seq![MovedView { at: after[k - 1].at, what: What::Taken }]
        }
    }
}

/// Every difference between two lists of places: the old ones that found no
/// new one at their path, or found it holding something else, in their order;
/// then the new ones nothing met, in theirs.
pub open spec fn moves_between(before: Seq<PlaceView>, after: Seq<PlaceView>) -> Seq<MovedView> {
    let m = meet_all(after, before);
    m.found + unmet(after, m.met, after.len() as int)
}

/// A place, held.
struct Place {
    at: StorePath,
    role: Role,
    optional: bool,
}

impl View for Place {
    type V = PlaceView;

    closed spec fn view(&self) -> PlaceView {
        PlaceView { at: self.at@, role: self.role, optional: self.optional }
    }
}

spec fn place_views(s: Seq<Place>) -> Seq<PlaceView> {
    s.map_values(|p: Place| p@)
}

proof fn lemma_places_of_step(under: Seq<Seq<char>>, trees: Seq<DeclaredTree>, i: int)
    requires
        0 <= i < trees.len(),
    ensures
        places_of(under, trees.take(i + 1)) == places_of(under, trees.take(i)) + places_at(under, trees[i]),
{
    assert(trees.take(i + 1).drop_last() =~= trees.take(i));
}

/// Every place a recorded list owns under `under`, appended to `into`.
fn walk_stored(under: &StorePath, fields: &Vec<StoredFieldEntry>, into: &mut Vec<Place>)
    ensures
        place_views(final(into)@) == place_views(old(into)@) + places_of(under@, entry_trees(fields@)),
    decreases fields,
{
    let ghost start = place_views(into@);
    proof {
        lemma_entry_trees(fields@);
        assert(entry_trees(fields@).take(0) =~= Seq::<DeclaredTree>::empty());
        assert(place_views(into@) =~= start + places_of(under@, entry_trees(fields@).take(0)));
    }
    let mut i: usize = 0;
    while i < fields.len()
        invariant
            i <= fields@.len(),
            entry_trees(fields@).len() == fields@.len(),
            forall|j: int| 0 <= j < fields@.len() ==> #[trigger] entry_trees(fields@)[j] == entry_tree(fields@[j]),
            place_views(into@) == start + places_of(under@, entry_trees(fields@).take(i as int)),
        decreases fields@.len() - i,
    {
        let field = &fields[i];
        proof {
            lemma_places_of_step(under@, entry_trees(fields@), i as int);
            assert(decreases_to!(fields => fields[i as int]));
        }
        let at = under.join(&field.name);
        match field.shape.role {
            Role::Node => {
                let below = if field.shape.flattened { under.copied() } else { at };
                walk_stored(&below, &field.shape.children, into);
            },
            role => {
                let ghost before = place_views(into@);
                into.push(Place { at, role, optional: field.shape.optional });
                assert(place_views(into@) =~= before + places_at(under@, entry_tree(fields@[i as int])));
            },
        }
        i = i + 1;
        assert(place_views(into@) =~= start + places_of(under@, entry_trees(fields@).take(i as int)));
    }
    assert(entry_trees(fields@).take(fields@.len() as int) =~= entry_trees(fields@));
}

/// Every place a list of declared fields owns under `under`, appended to
/// `into`.
fn walk_declared(under: &StorePath, fields: &Vec<FieldDescriptor>, into: &mut Vec<Place>)
    ensures
        place_views(final(into)@) == place_views(old(into)@) + places_of(under@, field_trees(fields@)),
    decreases fields,
{
    let ghost start = place_views(into@);
    proof {
        lemma_field_trees(fields@);
        assert(field_trees(fields@).take(0) =~= Seq::<DeclaredTree>::empty());
        assert(place_views(into@) =~= start + places_of(under@, field_trees(fields@).take(0)));
    }
    let mut i: usize = 0;
    while i < fields.len()
        invariant
            i <= fields@.len(),
            field_trees(fields@).len() == fields@.len(),
            forall|j: int| 0 <= j < fields@.len() ==> #[trigger] field_trees(fields@)[j] == field_tree(fields@[j]),
            place_views(into@) == start + places_of(under@, field_trees(fields@).take(i as int)),
        decreases fields@.len() - i,
    {
        let field = &fields[i];
        proof {
            lemma_places_of_step(under@, field_trees(fields@), i as int);
            assert(decreases_to!(fields => fields[i as int]));
        }
        match field.owns(under) {
            Some(at) => {
                let ghost before = place_views(into@);
                into.push(Place { at, role: field.role, optional: field.optional });
                assert(place_views(into@) =~= before + places_at(under@, field_tree(fields@[i as int])));
            },
            None => {
                let below = field.below(under);
                walk_declared(&below, &field.children, into);
            },
        }
        i = i + 1;
        assert(place_views(into@) =~= start + places_of(under@, field_trees(fields@).take(i as int)));
    }
    assert(field_trees(fields@).take(fields@.len() as int) =~= field_trees(fields@));
}

/// Every place a recorded list owns, in the order it was declared.
fn owned_stored(fields: &Vec<StoredFieldEntry>) -> (r: Vec<Place>)
    ensures
        place_views(r@) == stored_places(fields@),
{
    let mut found: Vec<Place> = Vec::new();
    let root = StorePath::root();
    assert(place_views(found@) =~= Seq::<PlaceView>::empty());
    walk_stored(&root, fields, &mut found);
    found
}

/// Every place a list of declared fields owns, in the order it is declared.
fn owned(fields: &Vec<FieldDescriptor>) -> (r: Vec<Place>)
    ensures
        place_views(r@) == declared_places(fields@),
{
    let mut found: Vec<Place> = Vec::new();
    let root = StorePath::root();
    assert(place_views(found@) =~= Seq::<PlaceView>::empty());
    walk_declared(&root, fields, &mut found);
    found
}

/// The first unmet new place at `at`.
fn first_free(after: &Vec<Place>, met: &Vec<bool>, at: &StorePath) -> (r: Option<usize>)
    requires
        met@.len() == after@.len(),
    ensures
        match r {
            Some(i) => i < after@.len() && i as int == free_match(place_views(after@), met@, at@, 0),
            None => free_match(place_views(after@), met@, at@, 0) == -1,
        },
{
    let ghost a = place_views(after@);
    let mut j: usize = 0;
    while j < after.len()
        invariant
            j <= after@.len(),
            met@.len() == after@.len(),
            a == place_views(after@),
            free_match(a, met@, at@, 0) == free_match(a, met@, at@, j as int),
        decreases after@.len() - j,
    {
        if !met[j] && after[j].at.same_as(at) {
            return Some(j);
        }
        j = j + 1;
    }
    None
}

/// Every difference between what was declared and what is declared: the
/// places that were held and are not, or hold something else now, in the
/// order they were declared, and then the places newly taken.
///
/// A name pairs nothing: both sides are read down to the places they own and
/// compared path against path. A rename reads as a release beside a claim.
pub fn between(was: &Vec<StoredFieldEntry>, now: &Vec<FieldDescriptor>) -> (r: Vec<Moved>)
    ensures
        moved_views(r@) == moves_between(stored_places(was@), declared_places(now@)),
{
    let before = owned_stored(was);
    let after = owned(now);
    let ghost b = place_views(before@);
    let ghost a = place_views(after@);

    let mut met: Vec<bool> = Vec::new();
    let mut n: usize = 0;
    while n < after.len()
        invariant
            n <= after@.len(),
            met@ == Seq::new(n as nat, |i: int| false),
        decreases after@.len() - n,
    {
        met.push(false);
        n = n + 1;
        assert(met@ =~= Seq::new(n as nat, |i: int| false));
    }

    let mut found: Vec<Moved> = Vec::new();
    proof {
        assert(b.take(0) =~= Seq::<PlaceView>::empty());
        assert(moved_views(found@) =~= Seq::<MovedView>::empty());
    }
    let mut k: usize = 0;
    while k < before.len()
        invariant
            k <= before@.len(),
            b == place_views(before@),
            a == place_views(after@),
            met@.len() == after@.len(),
            meet_all(a, b.take(k as int)) == (Matching { met: met@, found: moved_views(found@) }),
        decreases before@.len() - k,
    {
        let old = &before[k];
        proof {
            assert(b.take(k + 1).drop_last() =~= b.take(k as int));
        }
        let ghost st = Matching { met: met@, found: moved_views(found@) };
        match first_free(&after, &met, &old.at) {
            None => {
                found.push(Moved { at: old.at.copied(), what: What::Released });
                assert(moved_views(found@) =~= meet_one(a, st, b[k as int]).found);
            },
            Some(i) => {
                met.set(i, true);
                let new = &after[i];
                if old.role != new.role {
                    found.push(Moved { at: old.at.copied(), what: What::Role { was: old.role, now: new.role } });
                }
                if old.optional != new.optional {
                    found.push(Moved { at: old.at.copied(), what: What::Optional { now: new.optional } });
                }
                assert(moved_views(found@) =~= meet_one(a, st, b[k as int]).found);
            },
        }
        k = k + 1;
    }
    proof {
        assert(b.take(b.len() as int) =~= b);
    }
    let ghost m = meet_all(a, b);
    let mut t: usize = 0;
    while t < after.len()
        invariant
            t <= after@.len(),
            a == place_views(after@),
            m.met == met@,
            met@.len() == after@.len(),
            moved_views(found@) == m.found + unmet(a, m.met, t as int),
        decreases after@.len() - t,
    {
        let ghost prior = moved_views(found@);
        assert(a[t as int] == after@[t as int]@);
        if !met[t] {
            found.push(Moved { at: after[t].at.copied(), what: What::Taken });
            assert(moved_views(found@) =~= prior.push(MovedView { at: a[t as int].at, what: What::Taken }));
        } else {
            assert(moved_views(found@) =~= prior);
        }
        t = t + 1;
        assert(moved_views(found@) =~= m.found + unmet(a, m.met, t as int));
    }
    found
}


/// Whether two lists of places own a place in common.
pub open spec fn share_a_place(a: Seq<PlaceView>, b: Seq<PlaceView>) -> bool {
    exists|i: int, j: int| 0 <= i < a.len() && 0 <= j < b.len() && #[trigger] a[i].at == #[trigger] b[j].at
}

/// The places a recorded snapshot owns.
pub open spec fn snapshot_places(s: SchemaSnapshot) -> Seq<PlaceView> {
    stored_places(s.fields@)
}

/// `i` is the first recorded snapshot owning a place in common with `claimed`.
pub open spec fn first_sharing(held: Seq<SchemaSnapshot>, claimed: Seq<PlaceView>, i: int) -> bool {
    &&& 0 <= i < held.len()
    &&& share_a_place(snapshot_places(held[i]), claimed)
    &&& forall|k: int| 0 <= k < i ==> !share_a_place(#[trigger] snapshot_places(held[k]), claimed)
}

/// No recorded snapshot owns a place in common with `claimed`.
pub open spec fn none_sharing(held: Seq<SchemaSnapshot>, claimed: Seq<PlaceView>) -> bool {
    forall|k: int| 0 <= k < held.len() ==> !share_a_place(#[trigger] snapshot_places(held[k]), claimed)
}

fn meet(a: &Vec<Place>, b: &Vec<Place>) -> (r: bool)
    ensures
        r == share_a_place(place_views(a@), place_views(b@)),
{
    let ghost av = place_views(a@);
    let ghost bv = place_views(b@);
    let mut i: usize = 0;
    while i < a.len()
        invariant
            i <= a@.len(),
            av == place_views(a@),
            bv == place_views(b@),
            forall|x: int, y: int| 0 <= x < i && 0 <= y < bv.len() ==> av[x].at != bv[y].at,
        decreases a@.len() - i,
    {
        let mut j: usize = 0;
        while j < b.len()
            invariant
                i < a@.len(),
                j <= b@.len(),
                av == place_views(a@),
                bv == place_views(b@),
                forall|x: int, y: int| 0 <= x < i && 0 <= y < bv.len() ==> av[x].at != bv[y].at,
                forall|y: int| 0 <= y < j ==> av[i as int].at != bv[y].at,
            decreases b@.len() - j,
        {
            if a[i].at.same_as(&b[j].at) {
                assert(av[i as int].at == bv[j as int].at);
                return true;
            }
            j = j + 1;
        }
        i = i + 1;
    }
    false
}

fn first_meeting(recorded: &Vec<SchemaSnapshot>, claimed: &Vec<Place>) -> (r: Option<usize>)
    ensures
        match r {
            Some(i) => first_sharing(recorded@, place_views(claimed@), i as int),
            None => none_sharing(recorded@, place_views(claimed@)),
        },
{
    let mut i: usize = 0;
    while i < recorded.len()
        invariant
            i <= recorded@.len(),
            forall|k: int| 0 <= k < i ==> !share_a_place(#[trigger] snapshot_places(recorded@[k]), place_views(claimed@)),
        decreases recorded@.len() - i,
    {
        let mine = owned_stored(&recorded[i].fields);
        if meet(&mine, claimed) {
            return Some(i);
        }
        i = i + 1;
    }
    None
}

/// The recorded tree that is the same declaration as `now`, if one is: the
/// first that owns a place in common with it.
pub fn same_declaration(recorded: &Vec<SchemaSnapshot>, now: &Vec<FieldDescriptor>) -> (r: Option<usize>)
    ensures
        match r {
            Some(i) => first_sharing(recorded@, declared_places(now@), i as int),
            None => none_sharing(recorded@, declared_places(now@)),
        },
{
    let claimed = owned(now);
    first_meeting(recorded, &claimed)
}

/// What recording a snapshot does to the snapshots already held at its path.
#[derive(Debug, Clone, Copy, PartialEq, Eq, Structural)]
pub enum Recording {
    /// The same declaration is recorded and says the same thing.
    Unchanged,
    /// The same declaration is recorded and has moved, so it is replaced where
    /// it stands.
    Replacing(usize),
    /// Nothing recorded shares a place with it, so it joins them.
    Appending,
}

/// What recording `schema` over `held` amounts to.
pub open spec fn recording_is(held: Seq<SchemaSnapshot>, schema: SchemaSnapshot, r: Recording) -> bool {
    let claimed = snapshot_places(schema);
    match r {
        Recording::Unchanged => exists|i: int| #[trigger] first_sharing(held, claimed, i)
            && snapshot_says(held[i]) == snapshot_says(schema),
        Recording::Replacing(i) => first_sharing(held, claimed, i as int)
            && snapshot_says(held[i as int]) != snapshot_says(schema),
        Recording::Appending => none_sharing(held, claimed),
    }
}

/// The one decision every engine makes when a struct records what it
/// declares: leave the record alone, replace the same declaration where it
/// stands, or add it beside the others.
pub fn recording(held: &Vec<SchemaSnapshot>, schema: &SchemaSnapshot) -> (r: Recording)
    ensures
        recording_is(held@, *schema, r),
{
    let claimed = owned_stored(&schema.fields);
    match first_meeting(held, &claimed) {
        Some(index) => {
            assert(first_sharing(held@, snapshot_places(*schema), index as int));
            if held[index].same_as(schema) {
                Recording::Unchanged
            } else {
                Recording::Replacing(index)
            }
        },
        None => Recording::Appending,
    }
}

pub open spec fn says_all(s: Seq<SchemaSnapshot>) -> Seq<(u32, Option<Seq<char>>, Seq<DeclaredTree>)> {
    s.map_values(|x: SchemaSnapshot| snapshot_says(x))
}

/// Puts `schema` where [`recording`] says it goes, answering whether
/// anything changed - and so whether the caller has to write.
pub fn record_into(held: &mut Vec<SchemaSnapshot>, schema: &SchemaSnapshot) -> (changed: bool)
    ensures
        recording_is(old(held)@, *schema, Recording::Unchanged) ==> !changed && says_all(final(held)@) == says_all(old(held)@),
        forall|i: usize| recording_is(old(held)@, *schema, Recording::Replacing(i)) ==> changed
            && says_all(final(held)@) == says_all(old(held)@).update(i as int, snapshot_says(*schema)),
        recording_is(old(held)@, *schema, Recording::Appending) ==> changed
            && says_all(final(held)@) == says_all(old(held)@).push(snapshot_says(*schema)),
{
    let r = recording(held, schema);
    proof {
        lemma_recording_is_one(old(held)@, *schema, r);
    }
    match r {
        Recording::Unchanged => {
            return false;
        },
        Recording::Replacing(index) => {
            let copy = schema.copied();
            held.set(index, copy);
            assert(says_all(held@) =~= says_all(old(held)@).update(index as int, snapshot_says(*schema)));
        },
        Recording::Appending => {
            let copy = schema.copied();
            held.push(copy);
            assert(says_all(held@) =~= says_all(old(held)@).push(snapshot_says(*schema)));
        },
    }
    true
}

/// At most one of the three answers holds of any record.
pub proof fn lemma_recording_is_one(held: Seq<SchemaSnapshot>, schema: SchemaSnapshot, r: Recording)
    requires
        recording_is(held, schema, r),
    ensures
        forall|other: Recording| #[trigger] recording_is(held, schema, other) ==> other == r,
{
    let claimed = snapshot_places(schema);
    assert forall|other: Recording| #[trigger] recording_is(held, schema, other) implies other == r by {
        lemma_first_sharing_unique(held, claimed);
        match (r, other) {
            (Recording::Unchanged, Recording::Appending) => {
                let i = choose|i: int| #[trigger] first_sharing(held, claimed, i)
                    && snapshot_says(held[i]) == snapshot_says(schema);
                assert(!share_a_place(snapshot_places(held[i]), claimed));
            },
            (Recording::Appending, Recording::Unchanged) => {
                let i = choose|i: int| #[trigger] first_sharing(held, claimed, i)
                    && snapshot_says(held[i]) == snapshot_says(schema);
                assert(!share_a_place(snapshot_places(held[i]), claimed));
            },
            (Recording::Replacing(i), Recording::Appending) => {
                assert(!share_a_place(snapshot_places(held[i as int]), claimed));
            },
            (Recording::Appending, Recording::Replacing(i)) => {
                assert(!share_a_place(snapshot_places(held[i as int]), claimed));
            },
            _ => {},
        }
    }
}

/// The first sharing snapshot is one snapshot.
pub proof fn lemma_first_sharing_unique(held: Seq<SchemaSnapshot>, claimed: Seq<PlaceView>)
    ensures
        forall|i: int, j: int| #[trigger] first_sharing(held, claimed, i) && #[trigger] first_sharing(held, claimed, j) ==> i == j,
{
    assert forall|i: int, j: int| #[trigger] first_sharing(held, claimed, i) && #[trigger] first_sharing(held, claimed, j) implies i == j by {
        if i < j {
            assert(!share_a_place(snapshot_places(held[i]), claimed));
        } else if j < i {
            assert(!share_a_place(snapshot_places(held[j]), claimed));
        }
    }
}


/// Whether any of `places` sits at `at`.
fn owns_at(places: &Vec<Place>, at: &StorePath) -> (r: bool)
    ensures
        r == exists|q: int| 0 <= q < places@.len() && #[trigger] place_views(places@)[q].at == at@,
{
    let ghost v = place_views(places@);
    let mut q: usize = 0;
    while q < places.len()
        invariant
            q <= places@.len(),
            v == place_views(places@),
            forall|y: int| 0 <= y < q ==> v[y].at != at@,
        decreases places@.len() - q,
    {
        if places[q].at.same_as(at) {
            assert(v[q as int].at == at@);
            return true;
        }
        q = q + 1;
    }
    false
}

/// Two declarations recorded at one version of a prefix, both owning the same
/// place.
#[derive(Debug, PartialEq, Eq)]
pub struct Contradiction {
    pub version: u32,
    pub at: StorePath,
    pub between: (Option<String>, Option<String>),
}

pub open spec fn label_of(o: Option<String>) -> Option<Seq<char>> {
    match o {
        Some(n) => Some(n@),
        None => None,
    }
}

/// Snapshots `i` and `j` sit at one version and own a place in common.
pub open spec fn clash(held: Seq<SchemaSnapshot>, i: int, j: int) -> bool {
    &&& 0 <= i < j < held.len()
    &&& held[i].version == held[j].version
    &&& share_a_place(snapshot_places(held[i]), snapshot_places(held[j]))
}

/// `(i, j)` is the first clashing pair, reading `i` and then `j` in order.
pub open spec fn first_clash(held: Seq<SchemaSnapshot>, i: int, j: int) -> bool {
    &&& clash(held, i, j)
    &&& forall|a: int, b: int| #[trigger] clash(held, a, b) ==> (i < a || (i == a && j <= b))
}

/// `p` is the first of `mine` that `theirs` also owns.
pub open spec fn first_shared(mine: Seq<PlaceView>, theirs: Seq<PlaceView>, p: int) -> bool {
    &&& 0 <= p < mine.len()
    &&& exists|q: int| 0 <= q < theirs.len() && #[trigger] theirs[q].at == mine[p].at
    &&& forall|x: int, q: int| 0 <= x < p && 0 <= q < theirs.len() ==> #[trigger] theirs[q].at != #[trigger] mine[x].at
}

/// Whether what is recorded at one prefix says two things at once: two
/// declarations at one version both owning a place.
pub fn contradiction(held: &Vec<SchemaSnapshot>) -> (r: Option<Contradiction>)
    ensures
        match r {
            None => forall|i: int, j: int| !#[trigger] clash(held@, i, j),
            Some(c) => exists|i: int, j: int, p: int| {
                &&& #[trigger] first_clash(held@, i, j)
                &&& #[trigger] first_shared(snapshot_places(held@[i]), snapshot_places(held@[j]), p)
                &&& c.version == held@[i].version
                &&& c.at@ == snapshot_places(held@[i])[p].at
                &&& label_of(c.between.0) == label_of(held@[i].struct_name)
                &&& label_of(c.between.1) == label_of(held@[j].struct_name)
            },
        },
{
    let mut index: usize = 0;
    while index < held.len()
        invariant
            index <= held@.len(),
            forall|a: int, b: int| a < index ==> !#[trigger] clash(held@, a, b),
        decreases held@.len() - index,
    {
        let one = &held[index];
        let mine = owned_stored(&one.fields);
        let ghost mv = place_views(mine@);
        let mut other: usize = index + 1;
        while other < held.len()
            invariant
                index < other <= held@.len(),
                one == &held@[index as int],
                mv == place_views(mine@),
                mv == snapshot_places(held@[index as int]),
                forall|a: int, b: int| a < index ==> !#[trigger] clash(held@, a, b),
                forall|b: int| b < other ==> !#[trigger] clash(held@, index as int, b),
            decreases held@.len() - other,
        {
            if held[other].version != one.version {
                other = other + 1;
                continue;
            }
            let theirs = owned_stored(&held[other].fields);
            let ghost tv = place_views(theirs@);
            let mut p: usize = 0;
            while p < mine.len()
                invariant
                    p <= mine@.len(),
                    mv == place_views(mine@),
                    tv == place_views(theirs@),
                    index < other < held@.len(),
                    one == &held@[index as int],
                    held@[other as int].version == one.version,
                    mv == snapshot_places(held@[index as int]),
                    tv == snapshot_places(held@[other as int]),
                    forall|a: int, b: int| a < index ==> !#[trigger] clash(held@, a, b),
                    forall|b: int| b < other ==> !#[trigger] clash(held@, index as int, b),
                    forall|x: int, q: int| 0 <= x < p && 0 <= q < tv.len() ==> #[trigger] tv[q].at != #[trigger] mv[x].at,
                decreases mine@.len() - p,
            {
                let hit = owns_at(&theirs, &mine[p].at);
                if hit {
                    let ghost i = index as int;
                    let ghost j = other as int;
                    assert(mv[p as int] == mine@[p as int]@);
                    let ghost q = choose|q: int| 0 <= q < theirs@.len() && #[trigger] place_views(theirs@)[q].at == mine@[p as int].at@;
                    assert(tv[q].at == mv[p as int].at);
                    assert(tv == snapshot_places(held@[j]));
                    assert(share_a_place(mv, tv));
                    assert(clash(held@, i, j));
                    assert forall|a: int, b: int| #[trigger] clash(held@, a, b) implies (i < a || (i == a && j <= b)) by {
                        if a < i {
                        } else if a == i && b < j {
                        }
                    }
                    assert(first_clash(held@, i, j));
                    assert(first_shared(mv, tv, p as int));
                    let first = match &one.struct_name {
                        Some(n) => Some(n.clone()),
                        None => None,
                    };
                    let second = match &held[other].struct_name {
                        Some(n) => Some(n.clone()),
                        None => None,
                    };
                    return Some(Contradiction { version: one.version, at: mine[p].at.copied(), between: (first, second) });
                }
                p = p + 1;
            }
            assert(!share_a_place(mv, tv));
            other = other + 1;
        }
        index = index + 1;
    }
    None
}

} // verus!
