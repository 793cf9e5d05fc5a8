//! A read of a buffering engine: what it has committed, with the writes that
//! have not reached it yet laid over the top.

use crate::buffer::{distinct_keys, keyed, lemma_keyed, lemma_keyed_front};
use crate::path::{
    lemma_path_less_irreflexive, lemma_path_less_total, lemma_path_less_transitive, path_less,
    StorePath,
};
use vstd::prelude::*;

verus! {

/// An entry the engine holds, as a path and bytes.
pub open spec fn stored_views(v: Seq<(StorePath, Vec<u8>)>) -> Seq<(Seq<Seq<char>>, Seq<u8>)> {
    v.map_values(|e: (StorePath, Vec<u8>)| (e.0@, e.1@))
}

/// What a buffered write leaves at its path: bytes, or nothing.
pub open spec fn buffered_op(op: Option<Vec<u8>>) -> Option<Seq<u8>> {
    match op {
        Some(bytes) => Some(bytes@),
        None => None,
    }
}

/// A buffered write, as a path and what it leaves there.
pub open spec fn buffered_views(v: Seq<(StorePath, Option<Vec<u8>>)>) -> Seq<(Seq<Seq<char>>, Option<Seq<u8>>)> {
    v.map_values(|e: (StorePath, Option<Vec<u8>>)| (e.0@, buffered_op(e.1)))
}

/// Every path comes after the one before it.
pub open spec fn sorted_keys<V>(s: Seq<(Seq<Seq<char>>, V)>) -> bool {
    forall|i: int, j: int| 0 <= i < j < s.len() ==> path_less(s[i].0, s[j].0)
}

/// The two lists walked together by path: at each step the smaller head is
/// taken, the engine's side when the two are level. An engine entry whose
/// path the buffer also holds gives way to the buffer's, and a buffered
/// delete leaves nothing.
pub open spec fn merged(
    l: Seq<(Seq<Seq<char>>, Seq<u8>)>,
    r: Seq<(Seq<Seq<char>>, Option<Seq<u8>>)>,
) -> Seq<(Seq<Seq<char>>, Seq<u8>)>
    decreases l.len() + r.len(),
{
    if l.len() == 0 && r.len() == 0 {
        Seq::empty()
    } else if l.len() > 0 && (r.len() == 0 || !path_less(r[0].0, l[0].0)) {
        if r.len() > 0 && r[0].0 == l[0].0 {
            merged(l.drop_first(), r)
        } else {
            seq![l[0]] + merged(l.drop_first(), r)
        }
    } else {
        match r[0].1 {
            Some(bytes) => seq![(r[0].0, bytes)] + merged(l, r.drop_first()),
            None => merged(l, r.drop_first()),
        }
    }
}

/// What a read sees: the buffer's answer at every path it holds, a value or
/// nothing, and the engine's everywhere else.
pub open spec fn laid_over(
    committed: Map<Seq<Seq<char>>, Seq<u8>>,
    buffered: Map<Seq<Seq<char>>, Option<Seq<u8>>>,
) -> Map<Seq<Seq<char>>, Seq<u8>> {
    Map::new(
        |k: Seq<Seq<char>>|
            if buffered.contains_key(k) {
                buffered[k] is Some
            } else {
                committed.contains_key(k)
            },
        |k: Seq<Seq<char>>|
            if buffered.contains_key(k) {
                buffered[k]->0
            } else {
                committed[k]
            },
    )
}

pub proof fn lemma_merged_nothing_buffered(l: Seq<(Seq<Seq<char>>, Seq<u8>)>)
    ensures
        merged(l, Seq::empty()) == l,
    decreases l.len(),
{
    if l.len() > 0 {
        lemma_merged_nothing_buffered(l.drop_first());
        assert(l =~= seq![l[0]] + l.drop_first());
    } else {
        assert(l =~= Seq::empty());
    }
}

/// Every path the walk gives back lies above a bound both lists lie above.
proof fn lemma_merged_above(
    l: Seq<(Seq<Seq<char>>, Seq<u8>)>,
    r: Seq<(Seq<Seq<char>>, Option<Seq<u8>>)>,
    b: Seq<Seq<char>>,
)
    requires
        forall|i: int| 0 <= i < l.len() ==> path_less(b, #[trigger] l[i].0),
        forall|i: int| 0 <= i < r.len() ==> path_less(b, #[trigger] r[i].0),
    ensures
        forall|i: int| 0 <= i < merged(l, r).len() ==> path_less(b, #[trigger] merged(l, r)[i].0),
    decreases l.len() + r.len(),
{
    if l.len() == 0 && r.len() == 0 {
    } else if l.len() > 0 && (r.len() == 0 || !path_less(r[0].0, l[0].0)) {
        let l2 = l.drop_first();
        assert forall|i: int| 0 <= i < l2.len() implies path_less(b, #[trigger] l2[i].0) by {
            assert(l2[i] == l[i + 1]);
        }
        lemma_merged_above(l2, r, b);
        if !(r.len() > 0 && r[0].0 == l[0].0) {
            let m = merged(l, r);
            assert forall|i: int| 0 <= i < m.len() implies path_less(b, #[trigger] m[i].0) by {
                if i > 0 {
                    assert(m[i] == merged(l2, r)[i - 1]);
                }
            }
        }
    } else {
        let r2 = r.drop_first();
        assert forall|i: int| 0 <= i < r2.len() implies path_less(b, #[trigger] r2[i].0) by {
            assert(r2[i] == r[i + 1]);
        }
        lemma_merged_above(l, r2, b);
        if r[0].1 is Some {
            let m = merged(l, r);
            assert forall|i: int| 0 <= i < m.len() implies path_less(b, #[trigger] m[i].0) by {
                if i > 0 {
                    assert(m[i] == merged(l, r2)[i - 1]);
                }
            }
        }
    }
}

proof fn lemma_sorted_distinct<V>(s: Seq<(Seq<Seq<char>>, V)>)
    requires
        sorted_keys(s),
    ensures
        distinct_keys(s),
{
    assert forall|i: int, j: int| 0 <= i < j < s.len() implies s[i].0 != s[j].0 by {
        lemma_path_less_irreflexive(s[i].0);
    }
}

proof fn lemma_sorted_tail<V>(s: Seq<(Seq<Seq<char>>, V)>)
    requires
        sorted_keys(s),
        s.len() > 0,
    ensures
        sorted_keys(s.drop_first()),
        forall|i: int| 0 <= i < s.drop_first().len() ==> path_less(s[0].0, #[trigger] s.drop_first()[i].0),
        s == seq![s[0]] + s.drop_first(),
{
    assert(s =~= seq![s[0]] + s.drop_first());
    assert forall|i: int| 0 <= i < s.drop_first().len() implies path_less(s[0].0, #[trigger] s.drop_first()[i].0) by {
        assert(s.drop_first()[i] == s[i + 1]);
    }
}

proof fn lemma_sorted_front<V>(x: (Seq<Seq<char>>, V), rest: Seq<(Seq<Seq<char>>, V)>)
    requires
        sorted_keys(rest),
        forall|i: int| 0 <= i < rest.len() ==> path_less(x.0, #[trigger] rest[i].0),
    ensures
        sorted_keys(seq![x] + rest),
{
    let s = seq![x] + rest;
    assert forall|i: int, j: int| 0 <= i < j < s.len() implies path_less(s[i].0, s[j].0) by {
        assert(s[j] == rest[j - 1]);
        if i > 0 {
            assert(s[i] == rest[i - 1]);
        }
    }
}

/// A path below every path of a sorted list is none of them.
proof fn lemma_below_all_absent<V>(b: Seq<Seq<char>>, s: Seq<(Seq<Seq<char>>, V)>)
    requires
        sorted_keys(s),
        forall|i: int| 0 <= i < s.len() ==> path_less(b, #[trigger] s[i].0),
    ensures
        !keyed(s).contains_key(b),
{
    lemma_sorted_distinct(s);
    lemma_keyed(s);
    if keyed(s).contains_key(b) {
        let i = choose|i: int| 0 <= i < s.len() && s[i].0 == b;
        lemma_path_less_irreflexive(b);
    }
}

/// Laying the buffer over the engine, walked as two sorted lists, gives a
/// sorted list that holds exactly what a read of the two maps would.
pub proof fn lemma_merged_is_laid_over(
    l: Seq<(Seq<Seq<char>>, Seq<u8>)>,
    r: Seq<(Seq<Seq<char>>, Option<Seq<u8>>)>,
)
    requires
        sorted_keys(l),
        sorted_keys(r),
    ensures
        sorted_keys(merged(l, r)),
        distinct_keys(merged(l, r)),
        keyed(merged(l, r)) == laid_over(keyed(l), keyed(r)),
    decreases l.len() + r.len(),
{
    let m = merged(l, r);
    lemma_sorted_distinct(l);
    lemma_sorted_distinct(r);
    lemma_keyed(l);
    lemma_keyed(r);
    if l.len() == 0 && r.len() == 0 {
        assert(laid_over(keyed(l), keyed(r)) =~= Map::empty());
    } else if l.len() > 0 && (r.len() == 0 || !path_less(r[0].0, l[0].0)) {
        let x = l[0];
        let l2 = l.drop_first();
        lemma_sorted_tail(l);
        lemma_merged_is_laid_over(l2, r);
        lemma_sorted_distinct(l);
        lemma_keyed_front(x, l2);
        if r.len() > 0 && r[0].0 == x.0 {
            assert(keyed(r).contains_key(x.0));
            assert(laid_over(keyed(l), keyed(r)) =~= laid_over(keyed(l2), keyed(r)));
        } else {
            let rest = merged(l2, r);
            if r.len() > 0 {
                lemma_path_less_total(r[0].0, x.0);
                assert forall|i: int| 0 <= i < r.len() implies path_less(x.0, #[trigger] r[i].0) by {
                    if i > 0 {
                        lemma_path_less_transitive(x.0, r[0].0, r[i].0);
                    }
                }
            }
            lemma_merged_above(l2, r, x.0);
            lemma_sorted_front(x, rest);
            lemma_sorted_distinct(m);
            lemma_keyed_front(x, rest);
            lemma_below_all_absent(x.0, r);
            assert(laid_over(keyed(l), keyed(r)) =~= laid_over(keyed(l2), keyed(r)).insert(x.0, x.1));
        }
    } else {
        let y = r[0];
        let r2 = r.drop_first();
        lemma_sorted_tail(r);
        lemma_merged_is_laid_over(l, r2);
        lemma_sorted_distinct(r);
        lemma_keyed_front(y, r2);
        if l.len() > 0 {
            assert forall|i: int| 0 <= i < l.len() implies path_less(y.0, #[trigger] l[i].0) by {
                if i > 0 {
                    lemma_path_less_transitive(y.0, l[0].0, l[i].0);
                }
            }
        }
        lemma_below_all_absent(y.0, l);
        let rest = merged(l, r2);
        match y.1 {
            Some(bytes) => {
                lemma_merged_above(l, r2, y.0);
                lemma_sorted_front((y.0, bytes), rest);
                lemma_sorted_distinct(m);
                lemma_keyed_front((y.0, bytes), rest);
                assert(laid_over(keyed(l), keyed(r)) =~= laid_over(keyed(l), keyed(r2)).insert(y.0, bytes));
            },
            None => {
                assert(laid_over(keyed(l), keyed(r)) =~= laid_over(keyed(l), keyed(r2)));
            },
        }
    }
}

/// The same list, last first.
pub(crate) fn reversed<T>(v: Vec<T>) -> (r: Vec<T>)
    ensures
        r@.len() == v@.len(),
        forall|k: int| 0 <= k < r@.len() ==> r@[k] == v@[v@.len() - 1 - k],
{
    let ghost all = v@;
    let mut v = v;
    let mut r: Vec<T> = Vec::new();
    while v.len() > 0
        invariant
            v@ == all.subrange(0, v@.len() as int),
            r@.len() + v@.len() == all.len(),
            forall|k: int| 0 <= k < r@.len() ==> r@[k] == all[all.len() - 1 - k],
        decreases v@.len(),
    {
        let x = v.pop().unwrap();
        r.push(x);
        assert(v@ =~= all.subrange(0, v@.len() as int));
    }
    r
}

/// Lays the write buffer over what the engine holds, both sorted by path: a
/// buffered write replaces the committed value at its path, a buffered delete
/// leaves nothing there, and the order is the engine's.
///
/// What comes back is [`merged`] of the two; when both are sorted it is
/// sorted too, and holds at each path what a read of the two would find.
pub fn merge_buffered(
    committed: Vec<(StorePath, Vec<u8>)>,
    buffered: Vec<(StorePath, Option<Vec<u8>>)>,
) -> (out: Vec<(StorePath, Vec<u8>)>)
    ensures
        stored_views(out@) == merged(stored_views(committed@), buffered_views(buffered@)),
        sorted_keys(stored_views(committed@)) && sorted_keys(buffered_views(buffered@)) ==> {
            &&& sorted_keys(stored_views(out@))
            &&& keyed(stored_views(out@)) == laid_over(keyed(stored_views(committed@)), keyed(buffered_views(buffered@)))
        },
{
    let ghost l = stored_views(committed@);
    let ghost r = buffered_views(buffered@);
    proof {
        if sorted_keys(l) && sorted_keys(r) {
            lemma_merged_is_laid_over(l, r);
        }
    }
    if buffered.len() == 0 {
        proof {
            assert(r =~= Seq::empty());
            lemma_merged_nothing_buffered(l);
        }
        return committed;
    }
    let ghost nl = committed@.len();
    let ghost nr = buffered@.len();
    let ghost lv = committed@;
    let ghost rv = buffered@;
    let mut left = reversed(committed);
    let mut right = reversed(buffered);
    let mut out: Vec<(StorePath, Vec<u8>)> = Vec::new();
    proof {
        assert(l.skip(0) =~= l);
        assert(r.skip(0) =~= r);
        assert(stored_views(out@) =~= Seq::empty());
    }
    while left.len() > 0 || right.len() > 0
        invariant
            l == stored_views(lv),
            r == buffered_views(rv),
            nl == lv.len(),
            nr == rv.len(),
            left@.len() <= nl,
            right@.len() <= nr,
            forall|k: int| 0 <= k < left@.len() ==> left@[k] == lv[nl - 1 - k],
            forall|k: int| 0 <= k < right@.len() ==> right@[k] == rv[nr - 1 - k],
            merged(l, r) == stored_views(out@) + merged(l.skip(nl - left@.len()), r.skip(nr - right@.len())),
        decreases left@.len() + right@.len(),
    {
        let ghost i = nl - left@.len();
        let ghost j = nr - right@.len();
        let ghost ls = l.skip(i);
        let ghost rs = r.skip(j);
        let ghost before = stored_views(out@);
        let nleft = left.len();
        let nright = right.len();
        proof {
            if nleft > 0 {
                assert(left@[nleft - 1] == lv[i]);
                assert(ls[0] == l[i]);
                assert(ls.drop_first() =~= l.skip(i + 1));
            }
            if nright > 0 {
                assert(right@[nright - 1] == rv[j]);
                assert(rs[0] == r[j]);
                assert(rs.drop_first() =~= r.skip(j + 1));
            }
        }
        let take_left = if nleft > 0 && nright > 0 {
            !right[nright - 1].0.precedes(&left[nleft - 1].0)
        } else {
            nleft > 0
        };
        if take_left {
            let (key, value) = left.pop().unwrap();
            let level = nright > 0 && right[nright - 1].0.same_as(&key);
            if !level {
                out.push((key, value));
                assert(stored_views(out@) =~= before.push(l[i]));
                assert(before + merged(ls, rs) =~= stored_views(out@) + merged(l.skip(i + 1), rs));
            }
        } else {
            let (key, value) = right.pop().unwrap();
            match value {
                Some(bytes) => {
                    out.push((key, bytes));
                    assert(stored_views(out@) =~= before.push((r[j].0, r[j].1->0)));
                    assert(before + merged(ls, rs) =~= stored_views(out@) + merged(ls, r.skip(j + 1)));
                },
                None => {},
            }
        }
    }
    proof {
        assert(l.skip(nl as int) =~= Seq::empty());
        assert(r.skip(nr as int) =~= Seq::empty());
        assert(stored_views(out@) + Seq::empty() =~= stored_views(out@));
    }
    out
}

} // verus!
