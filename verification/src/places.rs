//! The places of one store that are spoken for, and by whom.
//!
//! A place is taken where a path is composed and belongs to the name that
//! took it: the same name taking the same place again changes nothing, and
//! nothing gives a place back.

use crate::buffer::{distinct_keys, keyed, lemma_keyed};
use crate::format::same_text;
use crate::overlay::sorted_keys;
use crate::owners::{blocked, overlap, owners_apart, apart_by_index};
use crate::path::{
    is_under, lemma_path_less_irreflexive, lemma_path_less_total, lemma_path_less_transitive,
    lemma_path_less_asymmetric, path_less, StorePath,
};
use vstd::prelude::*;

verus! {

/// A stored path and the name that took it.
#[derive(Debug)]
pub struct Owner {
    pub path: StorePath,
    pub by: &'static str,
}

/// Two owners over one place, with both sides named. `held_at` need not be
/// `at`: a place is held by one sitting above it or inside it.
#[derive(Debug)]
pub struct Taken {
    pub at: StorePath,
    pub wanted_by: &'static str,
    pub held_at: StorePath,
    pub held_by: &'static str,
}

/// Owners, as paths and names.
pub open spec fn owner_views(v: Seq<Owner>) -> Seq<(Seq<Seq<char>>, Seq<char>)> {
    v.map_values(|c: Owner| (c.path@, c.by@))
}

/// The places that are spoken for, sorted by path, always.
pub struct Places {
    taken: Vec<Owner>,
}

impl View for Places {
    type V = Map<Seq<Seq<char>>, Seq<char>>;

    closed spec fn view(&self) -> Map<Seq<Seq<char>>, Seq<char>> {
        keyed(owner_views(self.taken@))
    }
}

/// A name that is the only owner anywhere is refused nothing.
pub proof fn one_owner_may_take_any_place(m: Map<Seq<Seq<char>>, Seq<char>>, path: Seq<Seq<char>>, by: Seq<char>)
    requires
        forall|k: Seq<Seq<char>>| #[trigger] m.contains_key(k) ==> m[k] == by,
    ensures
        !blocked(m, path, by),
{
}

proof fn lemma_sorted_apart(s: Seq<(Seq<Seq<char>>, Seq<char>)>)
    requires
        sorted_keys(s),
    ensures
        distinct_keys(s),
{
    assert forall|i: int, j: int| 0 <= i < j < s.len() implies s[i].0 != s[j].0 by {
        lemma_path_less_irreflexive(s[i].0);
    }
}

proof fn lemma_places_apart(s: Seq<(Seq<Seq<char>>, Seq<char>)>)
    requires
        distinct_keys(s),
        apart_by_index(s),
    ensures
        owners_apart(keyed(s)),
{
    lemma_keyed(s);
    assert forall|a: Seq<Seq<char>>, b: Seq<Seq<char>>|
        keyed(s).contains_key(a) && keyed(s).contains_key(b) && keyed(s)[a] != keyed(s)[b] implies !overlap(a, b) by {
        let i = choose|i: int| 0 <= i < s.len() && s[i].0 == a;
        let j = choose|j: int| 0 <= j < s.len() && s[j].0 == b;
        assert(keyed(s)[s[i].0] == s[i].1);
        assert(keyed(s)[s[j].0] == s[j].1);
    }
}

impl Places {
    #[verifier::type_invariant]
    spec fn well_formed(self) -> bool {
        sorted_keys(owner_views(self.taken@)) && apart_by_index(owner_views(self.taken@))
    }

    /// Nothing spoken for.
    pub fn new() -> (r: Places)
        ensures
            r@ == Map::<Seq<Seq<char>>, Seq<char>>::empty(),
    {
        let r = Places { taken: Vec::new() };
        assert(owner_views(r.taken@) =~= Seq::empty());
        r
    }

    /// Where `path` is taken, if it is.
    fn find(&self, path: &StorePath) -> (r: Option<usize>)
        ensures
            match r {
                Some(i) => i < self.taken@.len() && self.taken@[i as int].path@ == path@,
                None => forall|i: int| 0 <= i < self.taken@.len() ==> self.taken@[i].path@ != path@,
            },
    {
        let mut i: usize = 0;
        while i < self.taken.len()
            invariant
                i <= self.taken@.len(),
                forall|j: int| 0 <= j < i ==> self.taken@[j].path@ != path@,
            decreases self.taken@.len() - i,
        {
            if self.taken[i].path.same_as(path) {
                return Some(i);
            }
            i = i + 1;
        }
        None
    }

    /// Records that `by` owns `path` and everything under it, or refuses
    /// where another name holds `path`, a place above it or a place inside it.
    ///
    /// A refusal names the deepest place at or above `path` that another name
    /// holds, where there is one, and otherwise the first place inside it, in
    /// path order, that another name holds.
    pub fn take(&mut self, path: &StorePath, by: &'static str) -> (r: Result<(), Box<Taken>>)
        ensures
            owners_apart(final(self)@),
            match r {
                Ok(()) => {
                    &&& !blocked(old(self)@, path@, by@)
                    &&& final(self)@ == old(self)@.insert(path@, by@)
                },
                Err(why) => {
                    &&& blocked(old(self)@, path@, by@)
                    &&& final(self)@ == old(self)@
                    &&& why.at@ == path@
                    &&& why.wanted_by == by
                    &&& old(self)@.contains_key(why.held_at@)
                    &&& old(self)@[why.held_at@] == why.held_by@
                    &&& why.held_by@ != by@
                    &&& overlap(why.held_at@, path@)
                    &&& (exists|k: Seq<Seq<char>>| #[trigger] old(self)@.contains_key(k) && old(self)@[k] != by@ && is_under(path@, k))
                        ==> is_under(path@, why.held_at@) && forall|k: Seq<Seq<char>>|
                            #[trigger] old(self)@.contains_key(k) && old(self)@[k] != by@ && is_under(path@, k)
                                ==> k.len() <= why.held_at@.len()
                    &&& !(exists|k: Seq<Seq<char>>| #[trigger] old(self)@.contains_key(k) && old(self)@[k] != by@ && is_under(path@, k))
                        ==> forall|k: Seq<Seq<char>>|
                            #[trigger] old(self)@.contains_key(k) && old(self)@[k] != by@ && is_under(k, path@)
                                ==> !path_less(k, why.held_at@)
                },
            },
    {
        proof {
            use_type_invariant(&*self);
        }
        let ghost s = owner_views(self.taken@);
        let ghost m = keyed(s);
        proof {
            lemma_sorted_apart(s);
            lemma_keyed(s);
        }
        let mut n: usize = path.len();
        let mut more = true;
        while more
            invariant
                s == owner_views(self.taken@),
                m == keyed(s),
                distinct_keys(s),
                sorted_keys(s),
                apart_by_index(s),
                n <= path@.len(),
                forall|i: int|
                    0 <= i < s.len() && is_under(path@, #[trigger] s[i].0) && (if more { s[i].0.len() > n } else { true })
                        ==> s[i].1 == by@ && s[i].0.len() < path@.len(),
            decreases n + if more { 1int } else { 0int },
        {
            proof {
                lemma_keyed(s);
            }
            let one = path.prefix(n);
            proof {
                assert(is_under(path@, one@));
            }
            match self.find(&one) {
                Some(i) => {
                    proof {
                        assert(s[i as int].0 == one@);
                        assert(m.contains_key(one@));
                        assert(m[one@] == s[i as int].1);
                    }
                    if !same_text(self.taken[i].by, by) {
                        let held_at = self.taken[i].path.copied();
                        let held_by = self.taken[i].by;
                        proof {
                            lemma_places_apart(s);
                            assert(overlap(one@, path@));
                            assert forall|k: Seq<Seq<char>>|
                                #[trigger] m.contains_key(k) && m[k] != by@ && is_under(path@, k) implies k.len() <= one@.len() by {
                                let j = choose|j: int| 0 <= j < s.len() && s[j].0 == k;
                                assert(m[s[j].0] == s[j].1);
                            }
                        }
                        return Err(Box::new(Taken { at: path.copied(), wanted_by: by, held_at, held_by }));
                    }
                    if n == path.len() {
                        proof {
                            assert(one@ =~= path@);
                            assert(m.insert(path@, by@) =~= m);
                            lemma_places_apart(s);
                            assert forall|k: Seq<Seq<char>>| #[trigger] m.contains_key(k) && m[k] != by@ implies !overlap(k, path@) by {
                                assert(m[path@] == by@);
                            }
                        }
                        return Ok(());
                    }
                },
                None => {},
            }
            proof {
                assert forall|i: int|
                    0 <= i < s.len() && is_under(path@, #[trigger] s[i].0) && s[i].0.len() == n
                        implies s[i].1 == by@ && s[i].0.len() < path@.len() by {
                    assert(s[i].0 =~= one@);
                }
            }
            if n == 0 {
                more = false;
            } else {
                n = n - 1;
            }
        }
        let mut i: usize = 0;
        while i < self.taken.len()
            invariant
                s == owner_views(self.taken@),
                m == keyed(s),
                distinct_keys(s),
                sorted_keys(s),
                apart_by_index(s),
                i <= s.len(),
                forall|j: int| 0 <= j < s.len() && is_under(path@, #[trigger] s[j].0) ==> s[j].1 == by@ && s[j].0.len() < path@.len(),
                forall|j: int| 0 <= j < i && is_under(#[trigger] s[j].0, path@) ==> s[j].1 == by@,
            decreases s.len() - i,
        {
            proof {
                lemma_keyed(s);
            }
            if self.taken[i].path.starts_with(path) && !same_text(self.taken[i].by, by) {
                let held_at = self.taken[i].path.copied();
                let held_by = self.taken[i].by;
                proof {
                    lemma_places_apart(s);
                    assert(s[i as int].0 == self.taken@[i as int].path@);
                    assert(m.contains_key(s[i as int].0));
                    assert(m[s[i as int].0] == s[i as int].1);
                    assert(overlap(s[i as int].0, path@));
                    assert forall|k: Seq<Seq<char>>| #[trigger] m.contains_key(k) && m[k] != by@ && is_under(path@, k) implies false by {
                        let j = choose|j: int| 0 <= j < s.len() && s[j].0 == k;
                        assert(m[s[j].0] == s[j].1);
                    }
                    assert forall|k: Seq<Seq<char>>|
                        #[trigger] m.contains_key(k) && m[k] != by@ && is_under(k, path@) implies !path_less(k, s[i as int].0) by {
                        let j = choose|j: int| 0 <= j < s.len() && s[j].0 == k;
                        assert(m[s[j].0] == s[j].1);
                        if j < i {
                            assert(s[j].1 == by@);
                        } else if j > i {
                            lemma_path_less_asymmetric(s[i as int].0, k);
                        } else {
                            lemma_path_less_irreflexive(k);
                        }
                    }
                }
                return Err(Box::new(Taken { at: path.copied(), wanted_by: by, held_at, held_by }));
            }
            i = i + 1;
        }
        let mut at: usize = 0;
        while at < self.taken.len() && self.taken[at].path.precedes(path)
            invariant
                s == owner_views(self.taken@),
                sorted_keys(s),
                at <= s.len(),
                forall|j: int| 0 <= j < at ==> path_less(#[trigger] s[j].0, path@),
            decreases s.len() - at,
        {
            at = at + 1;
        }
        proof {
            assert forall|j: int| at <= j < s.len() implies path_less(path@, #[trigger] s[j].0) by {
                assert(!path_less(s[at as int].0, path@));
                if path_less(s[j].0, path@) {
                    if j > at {
                        lemma_path_less_transitive(s[at as int].0, s[j].0, path@);
                    }
                }
                if s[j].0 == path@ {
                    assert(is_under(path@, s[j].0));
                }
                lemma_path_less_total(path@, s[j].0);
            }
        }
        let entry = Owner { path: path.copied(), by };
        let ghost added = (path@, by@);
        let mut taken: Vec<Owner> = Vec::new();
        std::mem::swap(&mut taken, &mut self.taken);
        taken.insert(at, entry);
        proof {
            let t = owner_views(taken@);
            assert(t =~= s.insert(at as int, added));
            assert forall|a: int, b: int| 0 <= a < b < t.len() implies path_less(t[a].0, t[b].0) by {
                if b < at {
                    assert(t[a] == s[a] && t[b] == s[b]);
                } else if b == at {
                    assert(t[a] == s[a]);
                } else if a == at {
                    assert(t[b] == s[b - 1]);
                } else if a < at {
                    assert(t[a] == s[a] && t[b] == s[b - 1]);
                    lemma_path_less_transitive(s[a].0, path@, s[b - 1].0);
                } else {
                    assert(t[a] == s[a - 1] && t[b] == s[b - 1]);
                }
            }
            lemma_sorted_apart(t);
            assert forall|a: int, b: int|
                #![trigger t[a], t[b]]
                0 <= a < t.len() && 0 <= b < t.len() && t[a].1 != t[b].1 implies !overlap(t[a].0, t[b].0) by {
                let sa = if a < at { a } else { a - 1 };
                let sb = if b < at { b } else { b - 1 };
                if a == at && b != at {
                    assert(t[b] == s[sb]);
                } else if b == at && a != at {
                    assert(t[a] == s[sa]);
                } else if a != at && b != at {
                    assert(t[a] == s[sa]);
                    assert(t[b] == s[sb]);
                }
            }
            lemma_keyed(t);
            lemma_places_apart(t);
            assert forall|k: Seq<Seq<char>>| #[trigger] keyed(t).contains_key(k) <==> m.insert(path@, by@).contains_key(k) by {
                if m.contains_key(k) {
                    let j = choose|j: int| 0 <= j < s.len() && s[j].0 == k;
                    if j < at {
                        assert(t[j].0 == k);
                    } else {
                        assert(t[j + 1].0 == k);
                    }
                }
                if keyed(t).contains_key(k) && k != path@ {
                    let j = choose|j: int| 0 <= j < t.len() && t[j].0 == k;
                    if j < at {
                        assert(s[j].0 == k);
                    } else {
                        assert(s[j - 1].0 == k);
                    }
                }
                assert(t[at as int].0 == path@);
            }
            assert forall|k: Seq<Seq<char>>| #[trigger] keyed(t).contains_key(k) implies keyed(t)[k] == m.insert(path@, by@)[k] by {
                let j = choose|j: int| 0 <= j < t.len() && t[j].0 == k;
                assert(keyed(t)[t[j].0] == t[j].1);
                if j < at {
                    assert(t[j] == s[j]);
                    assert(m[s[j].0] == s[j].1);
                } else if j > at {
                    assert(t[j] == s[j - 1]);
                    assert(m[s[j - 1].0] == s[j - 1].1);
                }
            }
            assert(keyed(t) =~= m.insert(path@, by@));
            assert forall|k: Seq<Seq<char>>| #[trigger] m.contains_key(k) && m[k] != by@ implies !overlap(k, path@) by {
                let j = choose|j: int| 0 <= j < s.len() && s[j].0 == k;
                assert(m[s[j].0] == s[j].1);
            }
        }
        self.taken = taken;
        Ok(())
    }

    /// The name that took exactly `path`, for a report or the inspector.
    pub fn declared_by(&self, path: &StorePath) -> (r: Option<&'static str>)
        ensures
            match r {
                Some(by) => self@.contains_key(path@) && self@[path@] == by@,
                None => !self@.contains_key(path@),
            },
    {
        proof {
            use_type_invariant(self);
            lemma_sorted_apart(owner_views(self.taken@));
            lemma_keyed(owner_views(self.taken@));
        }
        match self.find(path) {
            Some(i) => {
                assert(owner_views(self.taken@)[i as int].0 == path@);
                Some(self.taken[i].by)
            },
            None => None,
        }
    }

    /// How many places are taken.
    pub fn len(&self) -> (r: usize)
        ensures
            r == self@.dom().len(),
    {
        proof {
            use_type_invariant(self);
            lemma_sorted_apart(owner_views(self.taken@));
            lemma_keyed(owner_views(self.taken@));
        }
        self.taken.len()
    }

    /// The places taken with who took each, in path order.
    pub fn holders(&self) -> (r: &[Owner])
        ensures
            sorted_keys(owner_views(r@)),
            keyed(owner_views(r@)) == self@,
    {
        proof {
            use_type_invariant(self);
        }
        self.taken.as_slice()
    }
}

} // verus!
