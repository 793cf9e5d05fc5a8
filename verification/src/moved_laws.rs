//! What holds of every comparison [`between`](crate::moved::between) makes,
//! whatever the two trees are.

use crate::meta::{entry_trees, field_trees, FieldDescriptor, StoredFieldEntry};
use crate::moved::{
    declared_places, free_match, meet_all, meet_one, moves_between, stored_places, unmet,
    verdict_of, Matching, MovedView, PlaceView, Verdict, What,
};
use vstd::prelude::*;

verus! {

/// How many of the first `k` places sit at `x`.
pub open spec fn count_at(s: Seq<PlaceView>, x: Seq<Seq<char>>, k: int) -> nat
    decreases k,
{
    if k <= 0 {
        0
    } else {
        count_at(s, x, k - 1) + if s[k - 1].at == x { 1nat } else { 0nat }
    }
}

/// How many of the first `k` places sit at `x` and have (or have not) been met.
pub open spec fn count_met(after: Seq<PlaceView>, met: Seq<bool>, x: Seq<Seq<char>>, k: int, was_met: bool) -> nat
    decreases k,
{
    if k <= 0 {
        0
    } else {
        count_met(after, met, x, k - 1, was_met) + if met[k - 1] == was_met && after[k - 1].at == x {
            1nat
        } else {
            0nat
        }
    }
}

/// How many differences of kind `w` sit at `x`.
pub open spec fn count_what(s: Seq<MovedView>, w: What, x: Seq<Seq<char>>) -> nat
    decreases s.len(),
{
    if s.len() == 0 {
        0
    } else {
        count_what(s.drop_last(), w, x) + if s[s.len() - 1].what == w && s[s.len() - 1].at == x {
            1nat
        } else {
            0nat
        }
    }
}

pub open spec fn min(a: nat, b: nat) -> nat {
    if a <= b { a } else { b }
}

proof fn lemma_count_what_concat(s: Seq<MovedView>, t: Seq<MovedView>, w: What, x: Seq<Seq<char>>)
    ensures
        count_what(s + t, w, x) == count_what(s, w, x) + count_what(t, w, x),
    decreases t.len(),
{
    if t.len() > 0 {
        assert((s + t).drop_last() =~= s + t.drop_last());
        lemma_count_what_concat(s, t.drop_last(), w, x);
    } else {
        assert(s + t =~= s);
    }
}

proof fn lemma_count_at_prefix(s: Seq<PlaceView>, t: Seq<PlaceView>, x: Seq<Seq<char>>, k: int)
    requires
        0 <= k <= s.len(),
        k <= t.len(),
        forall|i: int| 0 <= i < k ==> s[i] == t[i],
    ensures
        count_at(s, x, k) == count_at(t, x, k),
    decreases k,
{
    if k > 0 {
        lemma_count_at_prefix(s, t, x, k - 1);
    }
}

proof fn lemma_free_match(after: Seq<PlaceView>, met: Seq<bool>, x: Seq<Seq<char>>, k: int)
    requires
        0 <= k,
        met.len() == after.len(),
    ensures
        free_match(after, met, x, k) == -1 ==> forall|j: int| k <= j < after.len() ==> met[j] || after[j].at != x,
        free_match(after, met, x, k) != -1 ==> {
            let i = free_match(after, met, x, k);
            k <= i < after.len() && !met[i] && after[i].at == x
        },
    decreases after.len() - k,
{
    if k < after.len() {
        lemma_free_match(after, met, x, k + 1);
    }
}

proof fn lemma_met_and_free(after: Seq<PlaceView>, met: Seq<bool>, x: Seq<Seq<char>>, k: int)
    requires
        0 <= k <= after.len(),
        met.len() == after.len(),
    ensures
        count_met(after, met, x, k, true) + count_met(after, met, x, k, false) == count_at(after, x, k),
        count_met(after, met, x, k, false) > 0 <==> exists|j: int| 0 <= j < k && !met[j] && after[j].at == x,
    decreases k,
{
    if k > 0 {
        lemma_met_and_free(after, met, x, k - 1);
        if !met[k - 1] && after[k - 1].at == x {
            assert(exists|j: int| 0 <= j < k && !met[j] && after[j].at == x);
        }
    }
}

proof fn lemma_count_met_update(after: Seq<PlaceView>, met: Seq<bool>, x: Seq<Seq<char>>, k: int, i: int)
    requires
        0 <= k <= after.len(),
        met.len() == after.len(),
        0 <= i < after.len(),
        !met[i],
    ensures
        count_met(after, met.update(i, true), x, k, true) == count_met(after, met, x, k, true)
            + if i < k && after[i].at == x { 1nat } else { 0nat },
    decreases k,
{
    if k > 0 {
        lemma_count_met_update(after, met, x, k - 1, i);
    }
}

/// Meeting every old place against the new ones: the new places met at `x`
/// are as many as both lists can pair off there, the old places released at
/// `x` are the rest of the old ones, and nothing is taken yet.
proof fn lemma_meet_all_counts(after: Seq<PlaceView>, before: Seq<PlaceView>, x: Seq<Seq<char>>)
    ensures
        meet_all(after, before).met.len() == after.len(),
        count_met(after, meet_all(after, before).met, x, after.len() as int, true)
            == min(count_at(before, x, before.len() as int), count_at(after, x, after.len() as int)),
        count_what(meet_all(after, before).found, What::Released, x)
            == count_at(before, x, before.len() as int) - min(count_at(before, x, before.len() as int), count_at(after, x, after.len() as int)),
        count_what(meet_all(after, before).found, What::Taken, x) == 0,
    decreases before.len(),
{
    let n = after.len() as int;
    let cb = count_at(after, x, n);
    if before.len() == 0 {
        let met = Seq::new(after.len(), |i: int| false);
        assert(meet_all(after, before).met == met);
        assert forall|k: int| 0 <= k <= n implies count_met(after, met, x, k, true) == 0 by {
            lemma_count_met_zero(after, met, x, k);
        }
    } else {
        let rest = before.drop_last();
        let old = before[before.len() - 1];
        let y = old.at;
        lemma_meet_all_counts(after, rest, x);
        lemma_meet_all_counts(after, rest, y);
        let st = meet_all(after, rest);
        let ca = count_at(rest, x, rest.len() as int);
        lemma_count_at_prefix(before, rest, x, rest.len() as int);
        lemma_count_at_prefix(before, rest, y, rest.len() as int);
        let i = free_match(after, st.met, y, 0);
        lemma_free_match(after, st.met, y, 0);
        lemma_met_and_free(after, st.met, y, n);
        lemma_met_and_free(after, st.met, x, n);
        let next = meet_one(after, st, old);
        assert(meet_all(after, before) == next);
        if i < 0 {
            assert(next.found == st.found.push(MovedView { at: y, what: What::Released }));
            assert(next.found.drop_last() =~= st.found);
            assert(count_met(after, st.met, y, n, false) == 0) by {
                if count_met(after, st.met, y, n, false) > 0 {
                    let j = choose|j: int| 0 <= j < n && !st.met[j] && after[j].at == y;
                }
            }
        } else {
            let new = after[i];
            lemma_count_met_update(after, st.met, x, n, i);
            let f1 = if old.role != new.role {
                st.found.push(MovedView { at: y, what: What::Role { was: old.role, now: new.role } })
            } else {
                st.found
            };
            let f2 = if old.optional != new.optional {
                f1.push(MovedView { at: y, what: What::Optional { now: new.optional } })
            } else {
                f1
            };
            assert(next.found == f2);
            assert(count_what(f1, What::Released, x) == count_what(st.found, What::Released, x)
                && count_what(f1, What::Taken, x) == count_what(st.found, What::Taken, x)) by {
                if old.role != new.role {
                    assert(f1.drop_last() =~= st.found);
                    assert(f1[f1.len() - 1].what != What::Released);
                    assert(f1[f1.len() - 1].what != What::Taken);
                }
            }
            assert(count_what(f2, What::Released, x) == count_what(f1, What::Released, x)
                && count_what(f2, What::Taken, x) == count_what(f1, What::Taken, x)) by {
                if old.optional != new.optional {
                    assert(f2.drop_last() =~= f1);
                    assert(f2[f2.len() - 1].what != What::Released);
                    assert(f2[f2.len() - 1].what != What::Taken);
                }
            }
            assert(count_what(f2, What::Released, x) == count_what(st.found, What::Released, x));
            assert(count_what(f2, What::Taken, x) == count_what(st.found, What::Taken, x));
            assert(count_met(after, st.met, y, n, false) > 0);
        }
    }
}

proof fn lemma_count_met_zero(after: Seq<PlaceView>, met: Seq<bool>, x: Seq<Seq<char>>, k: int)
    requires
        0 <= k <= met.len(),
        forall|j: int| 0 <= j < met.len() ==> !met[j],
    ensures
        count_met(after, met, x, k, true) == 0,
    decreases k,
{
    if k > 0 {
        lemma_count_met_zero(after, met, x, k - 1);
    }
}

/// The new places nothing met, counted at `x`: everything at `x` not met.
proof fn lemma_unmet_counts(after: Seq<PlaceView>, met: Seq<bool>, x: Seq<Seq<char>>, k: int)
    requires
        0 <= k <= after.len(),
        met.len() == after.len(),
    ensures
        count_what(unmet(after, met, k), What::Taken, x) == count_met(after, met, x, k, false),
        count_what(unmet(after, met, k), What::Released, x) == 0,
    decreases k,
{
    if k > 0 {
        lemma_unmet_counts(after, met, x, k - 1);
        let tail = if met[k - 1] {
            Seq::<MovedView>::empty()
        } else {
            seq![MovedView { at: after[k - 1].at, what: What::Taken }]
        };
        assert(unmet(after, met, k) == unmet(after, met, k - 1) + tail);
        lemma_count_what_concat(unmet(after, met, k - 1), tail, What::Taken, x);
        lemma_count_what_concat(unmet(after, met, k - 1), tail, What::Released, x);
        if !met[k - 1] {
            assert(tail.drop_last() =~= Seq::<MovedView>::empty());
            assert(count_what(Seq::<MovedView>::empty(), What::Taken, x) == 0);
            assert(count_what(Seq::<MovedView>::empty(), What::Released, x) == 0);
            assert(tail[tail.len() - 1].what == What::Taken);
            assert(count_what(tail, What::Taken, x) == if after[k - 1].at == x { 1nat } else { 0nat });
            assert(count_what(tail, What::Released, x) == 0);
        } else {
            assert(count_what(tail, What::Taken, x) == 0);
            assert(count_what(tail, What::Released, x) == 0);
        }
    }
}

/// Releasing and taking are mirror images: every path that comparing `a`
/// against `b` reports released, comparing `b` against `a` reports taken, as
/// many times, and the other way round.
pub proof fn release_and_claim_are_mirror_images(a: Seq<PlaceView>, b: Seq<PlaceView>, x: Seq<Seq<char>>)
    ensures
        count_what(moves_between(a, b), What::Released, x) == count_what(moves_between(b, a), What::Taken, x),
        count_what(moves_between(a, b), What::Taken, x) == count_what(moves_between(b, a), What::Released, x),
{
    let ca = count_at(a, x, a.len() as int);
    let cb = count_at(b, x, b.len() as int);
    let fwd = meet_all(b, a);
    let bwd = meet_all(a, b);
    lemma_meet_all_counts(b, a, x);
    lemma_meet_all_counts(a, b, x);
    lemma_unmet_counts(b, fwd.met, x, b.len() as int);
    lemma_unmet_counts(a, bwd.met, x, a.len() as int);
    lemma_met_and_free(b, fwd.met, x, b.len() as int);
    lemma_met_and_free(a, bwd.met, x, a.len() as int);
    lemma_count_what_concat(fwd.found, unmet(b, fwd.met, b.len() as int), What::Released, x);
    lemma_count_what_concat(fwd.found, unmet(b, fwd.met, b.len() as int), What::Taken, x);
    lemma_count_what_concat(bwd.found, unmet(a, bwd.met, a.len() as int), What::Released, x);
    lemma_count_what_concat(bwd.found, unmet(a, bwd.met, a.len() as int), What::Taken, x);
}

/// Meeting a list of places against itself meets each place with itself.
proof fn lemma_meet_self(p: Seq<PlaceView>, k: int)
    requires
        0 <= k <= p.len(),
    ensures
        meet_all(p, p.take(k)) == (Matching {
            met: Seq::new(p.len(), |i: int| i < k),
            found: Seq::<MovedView>::empty(),
        }),
    decreases k,
{
    if k == 0 {
        assert(p.take(0) =~= Seq::<PlaceView>::empty());
        assert(Seq::new(p.len(), |i: int| i < 0) =~= Seq::new(p.len(), |i: int| false));
    } else {
        lemma_meet_self(p, k - 1);
        assert(p.take(k).drop_last() =~= p.take(k - 1));
        let met = Seq::new(p.len(), |i: int| i < k - 1);
        let old = p[k - 1];
        lemma_free_match_self(p, met, k - 1, 0);
        assert(met.update(k - 1, true) =~= Seq::new(p.len(), |i: int| i < k));
    }
}

proof fn lemma_free_match_self(p: Seq<PlaceView>, met: Seq<bool>, k: int, s: int)
    requires
        0 <= s <= k < p.len(),
        met == Seq::new(p.len(), |i: int| i < k),
    ensures
        free_match(p, met, p[k].at, s) == k,
    decreases k - s,
{
    if s < k {
        lemma_free_match_self(p, met, k, s + 1);
    }
}

proof fn lemma_unmet_all_met(after: Seq<PlaceView>, met: Seq<bool>, k: int)
    requires
        0 <= k <= after.len(),
        met.len() == after.len(),
        forall|j: int| 0 <= j < met.len() ==> met[j],
    ensures
        unmet(after, met, k) == Seq::<MovedView>::empty(),
    decreases k,
{
    if k > 0 {
        lemma_unmet_all_met(after, met, k - 1);
        assert(unmet(after, met, k) =~= Seq::<MovedView>::empty());
    }
}

/// The same places twice have moved nothing.
pub proof fn the_same_places_twice_have_not_moved(p: Seq<PlaceView>)
    ensures
        moves_between(p, p) == Seq::<MovedView>::empty(),
{
    lemma_meet_self(p, p.len() as int);
    assert(p.take(p.len() as int) =~= p);
    let met = Seq::new(p.len(), |i: int| i < p.len());
    lemma_unmet_all_met(p, met, p.len() as int);
    assert(moves_between(p, p) =~= Seq::<MovedView>::empty());
}

/// A declaration compared with its own record has moved nothing: the same
/// tree twice - once as the store wrote it, once as the code declares it -
/// moves nothing.
pub proof fn the_same_tree_twice_has_moved_nothing(was: Seq<StoredFieldEntry>, now: Seq<FieldDescriptor>)
    requires
        entry_trees(was) == field_trees(now),
    ensures
        moves_between(stored_places(was), declared_places(now)) == Seq::<MovedView>::empty(),
{
    the_same_places_twice_have_not_moved(stored_places(was));
}

/// Something that breaks means the two lists of places differ.
pub proof fn a_break_means_the_trees_differ(before: Seq<PlaceView>, after: Seq<PlaceView>, i: int)
    requires
        0 <= i < moves_between(before, after).len(),
        verdict_of(moves_between(before, after)[i].what) == Verdict::Breaks,
    ensures
        before != after,
{
    if before == after {
        the_same_places_twice_have_not_moved(before);
    }
}

proof fn lemma_unmet_none_met(after: Seq<PlaceView>, k: int)
    requires
        0 <= k <= after.len(),
    ensures
        unmet(after, Seq::new(after.len(), |i: int| false), k)
            == Seq::new(k as nat, |j: int| MovedView { at: after[j].at, what: What::Taken }),
    decreases k,
{
    if k > 0 {
        lemma_unmet_none_met(after, k - 1);
        assert(unmet(after, Seq::new(after.len(), |i: int| false), k)
            =~= Seq::new(k as nat, |j: int| MovedView { at: after[j].at, what: What::Taken }));
    } else {
        assert(Seq::new(0, |j: int| MovedView { at: after[j].at, what: What::Taken }) =~= Seq::<MovedView>::empty());
    }
}

/// Against nothing recorded, a tree claims its places and nothing else, in
/// the order it declares them.
pub proof fn against_nothing_a_tree_claims_its_places(after: Seq<PlaceView>)
    ensures
        moves_between(Seq::empty(), after)
            == Seq::new(after.len(), |j: int| MovedView { at: after[j].at, what: What::Taken }),
{
    lemma_unmet_none_met(after, after.len() as int);
    assert(moves_between(Seq::empty(), after)
        =~= Seq::new(after.len(), |j: int| MovedView { at: after[j].at, what: What::Taken }));
}

proof fn lemma_meet_nothing(before: Seq<PlaceView>)
    ensures
        meet_all(Seq::empty(), before).met.len() == 0,
        meet_all(Seq::empty(), before).found
            == Seq::new(before.len(), |j: int| MovedView { at: before[j].at, what: What::Released }),
    decreases before.len(),
{
    if before.len() == 0 {
        assert(Seq::new(0, |j: int| MovedView { at: before[j].at, what: What::Released }) =~= Seq::<MovedView>::empty());
    } else {
        lemma_meet_nothing(before.drop_last());
        assert(meet_all(Seq::empty(), before).found
            =~= Seq::new(before.len(), |j: int| MovedView { at: before[j].at, what: What::Released }));
    }
}

/// Against nothing declared, every recorded place is released, and every
/// release breaks.
pub proof fn against_nothing_declared_every_place_is_released(before: Seq<PlaceView>)
    ensures
        moves_between(before, Seq::empty())
            == Seq::new(before.len(), |j: int| MovedView { at: before[j].at, what: What::Released }),
        forall|j: int| 0 <= j < before.len() ==> verdict_of(#[trigger] moves_between(before, Seq::empty())[j].what) == Verdict::Breaks,
{
    lemma_meet_nothing(before);
    assert(moves_between(before, Seq::empty())
        =~= Seq::new(before.len(), |j: int| MovedView { at: before[j].at, what: What::Released }));
}

/// Every place a comparison names is a place of one of the two lists.
pub proof fn every_place_reported_is_one_of_the_two_trees(before: Seq<PlaceView>, after: Seq<PlaceView>)
    ensures
        forall|k: int| 0 <= k < moves_between(before, after).len() ==>
            (exists|i: int| 0 <= i < before.len() && before[i].at == #[trigger] moves_between(before, after)[k].at)
            || (exists|j: int| 0 <= j < after.len() && after[j].at == moves_between(before, after)[k].at),
{
    let m = meet_all(after, before);
    lemma_found_from_before(after, before);
    lemma_unmet_from_after(after, m.met, after.len() as int);
    let all = moves_between(before, after);
    assert forall|k: int| 0 <= k < all.len() implies
        (exists|i: int| 0 <= i < before.len() && before[i].at == #[trigger] all[k].at)
        || (exists|j: int| 0 <= j < after.len() && after[j].at == all[k].at) by {
        if k < m.found.len() {
            assert(all[k] == m.found[k]);
        } else {
            assert(all[k] == unmet(after, m.met, after.len() as int)[k - m.found.len()]);
        }
    }
}

proof fn lemma_found_from_before(after: Seq<PlaceView>, before: Seq<PlaceView>)
    ensures
        forall|k: int| 0 <= k < meet_all(after, before).found.len() ==>
            exists|i: int| 0 <= i < before.len() && before[i].at == #[trigger] meet_all(after, before).found[k].at,
    decreases before.len(),
{
    if before.len() > 0 {
        let rest = before.drop_last();
        lemma_found_from_before(after, rest);
        let st = meet_all(after, rest);
        let found = meet_all(after, before).found;
        assert forall|k: int| 0 <= k < found.len() implies
            exists|i: int| 0 <= i < before.len() && before[i].at == #[trigger] found[k].at by {
            if k < st.found.len() {
                assert(found[k] == st.found[k]);
                let i = choose|i: int| 0 <= i < rest.len() && rest[i].at == st.found[k].at;
                assert(before[i] == rest[i]);
            } else {
                assert(found[k].at == before[before.len() - 1].at);
            }
        }
    }
}

proof fn lemma_unmet_from_after(after: Seq<PlaceView>, met: Seq<bool>, k: int)
    requires
        0 <= k <= after.len(),
    ensures
        forall|t: int| 0 <= t < unmet(after, met, k).len() ==>
            exists|j: int| 0 <= j < after.len() && after[j].at == #[trigger] unmet(after, met, k)[t].at,
    decreases k,
{
    if k > 0 {
        lemma_unmet_from_after(after, met, k - 1);
        let prev = unmet(after, met, k - 1);
        let cur = unmet(after, met, k);
        assert forall|t: int| 0 <= t < cur.len() implies
            exists|j: int| 0 <= j < after.len() && after[j].at == #[trigger] cur[t].at by {
            if t < prev.len() {
                assert(cur[t] == prev[t]);
            } else {
                assert(cur[t].at == after[k - 1].at);
            }
        }
    }
}

} // verus!
