//! Who owns which stored path, so that two owners cannot write over each
//! other.
//!
//! A claim is made where a path is composed, and belongs to the name that made
//! it: the same name claiming the same path again changes nothing, and a claim
//! stands for the life of the process.

use crate::buffer::{distinct_keys, keyed, lemma_keyed};
use crate::format::same_text;
use crate::path::{is_under, StorePath};
use vstd::prelude::*;

verus! {

/// A stored path and the name that claimed it.
#[derive(Debug)]
pub struct Claimed {
    pub path: StorePath,
    pub by: &'static str,
}

/// Why a claim was refused: the claim standing in its way, and the one that
/// was asked for.
#[derive(Debug)]
pub struct ClaimRefusal {
    pub standing: Claimed,
    pub wanted: Claimed,
}

/// Whether either path holds the other.
pub open spec fn overlap(a: Seq<Seq<char>>, b: Seq<Seq<char>>) -> bool {
    is_under(a, b) || is_under(b, a)
}

/// No two owners hold paths where one lies under the other.
pub open spec fn owners_apart(m: Map<Seq<Seq<char>>, Seq<char>>) -> bool {
    forall|a: Seq<Seq<char>>, b: Seq<Seq<char>>|
        #![trigger m[a], m[b]]
        m.contains_key(a) && m.contains_key(b) && m[a] != m[b] ==> !overlap(a, b)
}

/// Whether a claim by someone other than `by` stands in the way of `path`.
pub open spec fn blocked(m: Map<Seq<Seq<char>>, Seq<char>>, path: Seq<Seq<char>>, by: Seq<char>) -> bool {
    exists|k: Seq<Seq<char>>| #[trigger] m.contains_key(k) && m[k] != by && overlap(k, path)
}

/// Claims, as paths and names.
pub open spec fn claim_views(v: Seq<Claimed>) -> Seq<(Seq<Seq<char>>, Seq<char>)> {
    v.map_values(|c: Claimed| (c.path@, c.by@))
}

/// Who owns what.
pub struct Owners {
    claims: Vec<Claimed>,
}

impl View for Owners {
    type V = Map<Seq<Seq<char>>, Seq<char>>;

    closed spec fn view(&self) -> Map<Seq<Seq<char>>, Seq<char>> {
        keyed(claim_views(self.claims@))
    }
}

pub open spec fn apart_by_index(s: Seq<(Seq<Seq<char>>, Seq<char>)>) -> bool {
    forall|i: int, j: int|
        #![trigger s[i], s[j]]
        0 <= i < s.len() && 0 <= j < s.len() && s[i].1 != s[j].1 ==> !overlap(s[i].0, s[j].0)
}

proof fn lemma_apart(s: Seq<(Seq<Seq<char>>, Seq<char>)>)
    requires
        distinct_keys(s),
        apart_by_index(s),
    ensures
        owners_apart(keyed(s)),
{
    lemma_keyed(s);
    assert forall|a: Seq<Seq<char>>, b: Seq<Seq<char>>|
        keyed(s).contains_key(a) && keyed(s).contains_key(b) && keyed(s)[a] != keyed(s)[b] implies !overlap(a, b) by {
        let i = choose|i: int| 0 <= i < s.len() && s[i].0 == a;
        let j = choose|j: int| 0 <= j < s.len() && s[j].0 == b;
        assert(keyed(s)[s[i].0] == s[i].1);
        assert(keyed(s)[s[j].0] == s[j].1);
    }
}

impl Owners {
    #[verifier::type_invariant]
    spec fn well_formed(self) -> bool {
        distinct_keys(claim_views(self.claims@)) && apart_by_index(claim_views(self.claims@))
    }

    /// Nobody owns anything yet.
    pub fn new() -> (r: Owners)
        ensures
            r@ == Map::<Seq<Seq<char>>, Seq<char>>::empty(),
            owners_apart(r@),
    {
        let r = Owners { claims: Vec::new() };
        assert(claim_views(r.claims@) =~= Seq::empty());
        r
    }

    /// Where `path` is claimed, if it is.
    fn find(&self, path: &StorePath) -> (r: Option<usize>)
        ensures
            match r {
                Some(i) => i < self.claims@.len() && self.claims@[i as int].path@ == path@,
                None => forall|i: int| 0 <= i < self.claims@.len() ==> self.claims@[i].path@ != path@,
            },
    {
        let mut i: usize = 0;
        while i < self.claims.len()
            invariant
                i <= self.claims@.len(),
                forall|j: int| 0 <= j < i ==> self.claims@[j].path@ != path@,
            decreases self.claims@.len() - i,
        {
            if self.claims[i].path.same_as(path) {
                return Some(i);
            }
            i = i + 1;
        }
        None
    }

    /// Records that `by` owns `path` and everything under it, or refuses
    /// where someone else holds `path`, a path above it, or a path below it.
    ///
    /// A refusal names the claim in the way: the deepest one at or above
    /// `path` where there is one, and otherwise one below it. Which of several
    /// below it is named is not stated.
    pub fn claim(&mut self, path: &StorePath, by: &'static str) -> (r: Result<(), ClaimRefusal>)
        ensures
            owners_apart(final(self)@),
            match r {
                Ok(()) => {
                    &&& !blocked(old(self)@, path@, by@)
                    &&& final(self)@ == old(self)@.insert(path@, by@)
                },
                Err(why) => {
                    &&& blocked(old(self)@, path@, by@)
                    &&& final(self)@ == old(self)@
                    &&& why.wanted.path@ == path@
                    &&& why.wanted.by == by
                    &&& old(self)@.contains_key(why.standing.path@)
                    &&& old(self)@[why.standing.path@] == why.standing.by@
                    &&& why.standing.by@ != by@
                    &&& overlap(why.standing.path@, path@)
                    &&& (exists|k: Seq<Seq<char>>| #[trigger] old(self)@.contains_key(k) && old(self)@[k] != by@ && is_under(path@, k))
                        ==> is_under(path@, why.standing.path@)
                    &&& forall|k: Seq<Seq<char>>|
                        #[trigger] old(self)@.contains_key(k) && old(self)@[k] != by@ && is_under(path@, k)
                            ==> k.len() <= why.standing.path@.len()
                },
            },
    {
        proof {
            use_type_invariant(&*self);
        }
        let ghost s = claim_views(self.claims@);
        let ghost m = keyed(s);
        proof {
            lemma_keyed(s);
        }
        let mut n: usize = path.len();
        let mut more = true;
        while more
            invariant
                s == claim_views(self.claims@),
                m == keyed(s),
                distinct_keys(s),
                apart_by_index(s),
                n <= path@.len(),
                forall|i: int|
                    0 <= i < s.len() && is_under(path@, #[trigger] s[i].0) && (if more { s[i].0.len() > n } else { true })
                        ==> s[i].1 == by@ && s[i].0.len() < path@.len(),
            decreases n + if more { 1int } else { 0int },
        {
            let one = path.prefix(n);
            proof {
                lemma_keyed(s);
                assert(is_under(path@, one@));
            }
            match self.find(&one) {
                Some(i) => {
                    proof {
                        assert(s[i as int].0 == one@);
                        assert(m[one@] == s[i as int].1);
                    }
                    if !same_text(self.claims[i].by, by) {
                        let standing = Claimed { path: self.claims[i].path.copied(), by: self.claims[i].by };
                        let wanted = Claimed { path: path.copied(), by };
                        proof {
                            lemma_apart(s);
                            assert(overlap(one@, path@));
                            assert(m.contains_key(one@) && m[one@] != by@);
                            assert forall|k: Seq<Seq<char>>|
                                #[trigger] m.contains_key(k) && m[k] != by@ && is_under(path@, k) implies k.len() <= one@.len() by {
                                let j = choose|j: int| 0 <= j < s.len() && s[j].0 == k;
                                assert(m[s[j].0] == s[j].1);
                            }
                        }
                        return Err(ClaimRefusal { standing, wanted });
                    }
                    if n == path.len() {
                        proof {
                            assert(one@ =~= path@);
                            assert(m.insert(path@, by@) =~= m);
                            lemma_apart(s);
                            assert forall|k: Seq<Seq<char>>| #[trigger] m.contains_key(k) && m[k] != by@ implies !overlap(k, path@) by {
                                assert(owners_apart(m));
                                assert(m[path@] == by@);
                            }
                        }
                        return Ok(());
                    }
                },
                None => {},
            }
            proof {
                assert forall|i: int|
                    0 <= i < s.len() && is_under(path@, #[trigger] s[i].0) && s[i].0.len() == n
                        implies s[i].1 == by@ && s[i].0.len() < path@.len() by {
                    assert(s[i].0 =~= one@);
                }
            }
            if n == 0 {
                more = false;
            } else {
                n = n - 1;
            }
        }
        let mut i: usize = 0;
        while i < self.claims.len()
            invariant
                s == claim_views(self.claims@),
                m == keyed(s),
                distinct_keys(s),
                apart_by_index(s),
                i <= s.len(),
                forall|j: int| 0 <= j < s.len() && is_under(path@, #[trigger] s[j].0) ==> s[j].1 == by@ && s[j].0.len() < path@.len(),
                forall|j: int| 0 <= j < i && is_under(#[trigger] s[j].0, path@) ==> s[j].1 == by@,
            decreases s.len() - i,
        {
            proof {
                lemma_keyed(s);
            }
            if self.claims[i].path.starts_with(path) && !same_text(self.claims[i].by, by) {
                let standing = Claimed { path: self.claims[i].path.copied(), by: self.claims[i].by };
                let wanted = Claimed { path: path.copied(), by };
                proof {
                    lemma_apart(s);
                    assert(s[i as int].0 == self.claims@[i as int].path@);
                    assert(m.contains_key(s[i as int].0));
                    assert(m[s[i as int].0] == s[i as int].1);
                    assert(overlap(s[i as int].0, path@));
                    assert forall|k: Seq<Seq<char>>| #[trigger] m.contains_key(k) && m[k] != by@ && is_under(path@, k) implies false by {
                        let j = choose|j: int| 0 <= j < s.len() && s[j].0 == k;
                        assert(m[s[j].0] == s[j].1);
                    }
                }
                return Err(ClaimRefusal { standing, wanted });
            }
            i = i + 1;
        }
        let entry = Claimed { path: path.copied(), by };
        let ghost added = (path@, by@);
        proof {
            assert forall|j: int| 0 <= j < s.len() implies s[j].0 != path@ by {
                if s[j].0 == path@ {
                    assert(is_under(path@, s[j].0));
                }
            }
        }
        let mut claims: Vec<Claimed> = Vec::new();
        std::mem::swap(&mut claims, &mut self.claims);
        claims.push(entry);
        proof {
            let t = claim_views(claims@);
            assert(t =~= s.push(added));
            assert(t.drop_last() =~= s);
            assert(distinct_keys(t));
            assert forall|a: int, b: int|
                #![trigger t[a], t[b]]
                0 <= a < t.len() && 0 <= b < t.len() && t[a].1 != t[b].1 implies !overlap(t[a].0, t[b].0) by {
                if a == s.len() as int && b < s.len() {
                    assert(t[b] == s[b]);
                } else if b == s.len() as int && a < s.len() {
                    assert(t[a] == s[a]);
                } else if a < s.len() && b < s.len() {
                    assert(t[a] == s[a]);
                    assert(t[b] == s[b]);
                }
            }
            lemma_apart(t);
            assert forall|k: Seq<Seq<char>>| #[trigger] m.contains_key(k) && m[k] != by@ implies !overlap(k, path@) by {
                let j = choose|j: int| 0 <= j < s.len() && s[j].0 == k;
                assert(m[s[j].0] == s[j].1);
            }
        }
        self.claims = claims;
        Ok(())
    }

    /// The name that claimed exactly `path`, for a report or the inspector.
    pub fn declared_by(&self, path: &StorePath) -> (r: Option<&'static str>)
        ensures
            match r {
                Some(by) => self@.contains_key(path@) && self@[path@] == by@,
                None => !self@.contains_key(path@),
            },
    {
        proof {
            use_type_invariant(self);
            lemma_keyed(claim_views(self.claims@));
        }
        match self.find(path) {
            Some(i) => {
                assert(claim_views(self.claims@)[i as int].0 == path@);
                Some(self.claims[i].by)
            },
            None => None,
        }
    }

    /// How many claims stand.
    pub fn len(&self) -> (r: usize)
        ensures
            r == self@.dom().len(),
    {
        proof {
            use_type_invariant(self);
            lemma_keyed(claim_views(self.claims@));
        }
        self.claims.len()
    }
}

} // verus!
