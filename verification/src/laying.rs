//! How a save puts what this store wrote back over what the file holds now,
//! when the file was edited outside while the store held writes of its own.
//!
//! The file, as read, is the ground. Every level this store swept comes off
//! it whole, and with it every whole key at the root that spells a path under
//! the level; then every place this store wrote is set to what the store's
//! own document holds there, or taken out where the document holds nothing.
//! Everything else stays as the file has it.

use crate::declared::path_views;
use crate::document::{
    a_delete_takes_what_stood_there, a_write_reads_back_and_leaves_the_rest, at, delete_at,
    delete_subtree_at, diverge, every_change_keeps_names_unique, generic_delete,
    generic_delete_subtree, generic_get, generic_scan_keys, generic_set, lemma_at_joined, lemma_delete_leaves_the_rest,
    lemma_delete_nothing, lemma_set_what_stands, lemma_sweep_leaves_the_rest, lemma_wf_below, set_at,
    wf, child, find, lemma_find, Node, Occupied, OccupiedView, Tree,
};
use crate::document::scanned;
use crate::format::same_text;
use crate::path::{is_under, StorePath};
use vstd::prelude::*;

verus! {

/// What each name at the root spells as a path, where it spells one.
pub type Spellings = Seq<(Seq<char>, Option<Seq<Seq<char>>>)>;

/// The path `n` spells, by the first entry for `n`.
pub open spec fn spelling(sp: Spellings, n: Seq<char>) -> Option<Seq<Seq<char>>>
    decreases sp.len(),
{
    if sp.len() == 0 {
        None
    } else if sp[0].0 == n {
        sp[0].1
    } else {
        spelling(sp.drop_first(), n)
    }
}

/// Whether the root name `n` is a whole key of a path strictly under `u`.
pub open spec fn beside(sp: Spellings, u: Seq<Seq<char>>, n: Seq<char>) -> bool {
    match spelling(sp, n) {
        Some(p) => is_under(p, u) && p != u,
        None => false,
    }
}

/// The names at the root of `t`, each as a path of one level, in the order
/// the file holds them.
pub open spec fn root_keys(t: Tree) -> Seq<Seq<Seq<char>>> {
    scanned(t, Seq::empty()).map_values(|e: (Seq<Seq<char>>, Tree)| e.0)
}

/// `t` with every key among `keys` that is a whole key under `u` taken off,
/// in order.
pub open spec fn off_beside(t: Tree, keys: Seq<Seq<Seq<char>>>, sp: Spellings, u: Seq<Seq<char>>) -> Tree
    decreases keys.len(),
{
    if keys.len() == 0 {
        t
    } else {
        let m = off_beside(t, keys.drop_last(), sp, u);
        let k = keys.last();
        if k.len() == 1 && beside(sp, u, k[0]) {
            delete_at(m, k, 0).0
        } else {
            m
        }
    }
}

/// One swept level taken off `t`: the level whole, then the whole keys at
/// the root that spell paths under it.
pub open spec fn swept_step(t: Tree, sp: Spellings, u: Seq<Seq<char>>) -> Tree {
    let t1 = delete_subtree_at(t, u, 0);
    off_beside(t1, root_keys(t1), sp, u)
}

/// The file with every level in `swept` taken off it, in order.
pub open spec fn swept_of(t: Tree, sp: Spellings, swept: Seq<Seq<Seq<char>>>) -> Tree
    decreases swept.len(),
{
    if swept.len() == 0 {
        t
    } else {
        swept_step(swept_of(t, sp, swept.drop_last()), sp, swept.last())
    }
}

/// Spellings, as values.
pub open spec fn spelling_views(v: Seq<(String, Option<StorePath>)>) -> Spellings {
    v.map_values(|e: (String, Option<StorePath>)| (e.0@, match e.1 {
        Some(p) => Some(p@),
        None => None,
    }))
}

fn is_beside(spellings: &Vec<(String, Option<StorePath>)>, u: &StorePath, name: &str) -> (r: bool)
    ensures
        r == beside(spelling_views(spellings@), u@, name@),
{
    let ghost sp = spelling_views(spellings@);
    let mut i: usize = 0;
    assert(sp.skip(0) =~= sp);
    while i < spellings.len()
        invariant
            i <= spellings@.len(),
            sp == spelling_views(spellings@),
            spelling(sp, name@) == spelling(sp.skip(i as int), name@),
        decreases spellings@.len() - i,
    {
        let ghost rest = sp.skip(i as int);
        assert(rest[0] == sp[i as int]);
        assert(rest.drop_first() =~= sp.skip(i + 1));
        if same_text(spellings[i].0.as_str(), name) {
            return match &spellings[i].1 {
                Some(p) => p.starts_with(u) && !p.same_as(u),
                None => false,
            };
        }
        i = i + 1;
    }
    assert(sp.skip(i as int).len() == 0);
    false
}

/// One place this store wrote, laid over `m`: what the store's document holds
/// there, or nothing where it holds nothing.
pub open spec fn laid_step(m: Tree, mine: Tree, p: Seq<Seq<char>>) -> Result<Tree, OccupiedView> {
    match at(mine, p) {
        Some(v) => set_at(m, p, 0, v),
        None => Ok(delete_at(m, p, 0).0),
    }
}

/// Every place in `wrote` laid over `t` in order, or the first refusal.
pub open spec fn laid_of(t: Tree, mine: Tree, wrote: Seq<Seq<Seq<char>>>) -> Result<Tree, OccupiedView>
    decreases wrote.len(),
{
    if wrote.len() == 0 {
        Ok(t)
    } else {
        match laid_of(t, mine, wrote.drop_last()) {
            Ok(m) => laid_step(m, mine, wrote.last()),
            Err(e) => Err(e),
        }
    }
}

/// What laying this store's writes over the file comes to.
pub open spec fn lay_over_of(
    on_disk: Tree,
    mine: Tree,
    sp: Spellings,
    swept: Seq<Seq<Seq<char>>>,
    wrote: Seq<Seq<Seq<char>>>,
) -> Result<Tree, OccupiedView> {
    laid_of(swept_of(on_disk, sp, swept), mine, wrote)
}

proof fn lemma_refusal_stands(t: Tree, mine: Tree, wrote: Seq<Seq<Seq<char>>>, n: int)
    requires
        0 <= n <= wrote.len(),
        laid_of(t, mine, wrote.take(n)) is Err,
    ensures
        laid_of(t, mine, wrote) == laid_of(t, mine, wrote.take(n)),
    decreases wrote.len() - n,
{
    if n == wrote.len() {
        assert(wrote.take(n) =~= wrote);
    } else {
        assert(wrote.take(n + 1).drop_last() =~= wrote.take(n));
        lemma_refusal_stands(t, mine, wrote, n + 1);
    }
}

/// Puts what this store wrote back over `on_disk`, the file as just read:
/// takes every level in `swept` off it, and with each the whole keys at the
/// root that spell a path strictly under it (`spellings` says what each name
/// at the root of the file spells, where it spells a path); then sets every
/// place in `wrote` to what `mine`, the store's own document, holds there, or
/// takes it out where `mine` holds nothing. Refused, with the first place
/// that would not go back on, where one does not.
pub fn lay_over(
    on_disk: Node,
    mine: &Node,
    spellings: &Vec<(String, Option<StorePath>)>,
    swept: &Vec<StorePath>,
    wrote: &Vec<StorePath>,
) -> (r: Result<Node, Occupied>)
    ensures
        match lay_over_of(on_disk.tree(), mine.tree(), spelling_views(spellings@), path_views(swept@), path_views(wrote@)) {
            Ok(t) => r matches Ok(n) && n.tree() == t,
            Err(e) => r matches Err(o) && o@ == e,
        },
{
    let ghost disk = on_disk.tree();
    let ghost sp = spelling_views(spellings@);
    let ghost sv = path_views(swept@);
    let ghost wv = path_views(wrote@);
    let mut merged = on_disk;
    let root = StorePath::root();
    let mut i: usize = 0;
    assert(sv.take(0) =~= Seq::<Seq<Seq<char>>>::empty());
    while i < swept.len()
        invariant
            i <= swept@.len(),
            sv == path_views(swept@),
            sp == spelling_views(spellings@),
            root@ == Seq::<Seq<char>>::empty(),
            merged.tree() == swept_of(disk, sp, sv.take(i as int)),
        decreases swept@.len() - i,
    {
        let u = &swept[i];
        generic_delete_subtree(&mut merged, u);
        let ghost t1 = merged.tree();
        let keys = generic_scan_keys(&merged, &root);
        let ghost kv = keys@.map_values(|p: StorePath| p@);
        assert(kv == root_keys(t1));
        let mut j: usize = 0;
        assert(kv.take(0) =~= Seq::<Seq<Seq<char>>>::empty());
        while j < keys.len()
            invariant
                j <= keys@.len(),
                kv == keys@.map_values(|p: StorePath| p@),
                sp == spelling_views(spellings@),
                merged.tree() == off_beside(t1, kv.take(j as int), sp, u@),
            decreases keys@.len() - j,
        {
            let k = &keys[j];
            proof {
                assert(kv.take(j + 1).drop_last() =~= kv.take(j as int));
                assert(kv.take(j + 1).last() == k@);
            }
            if k.len() == 1 && is_beside(spellings, u, k.level(0).as_str()) {
                let _ = generic_delete(&mut merged, k);
            }
            j = j + 1;
        }
        proof {
            assert(kv.take(keys@.len() as int) =~= kv);
            assert(sv.take(i + 1).drop_last() =~= sv.take(i as int));
            assert(sv.take(i + 1).last() == swept@[i as int]@);
        }
        i = i + 1;
    }
    assert(sv.take(swept@.len() as int) =~= sv);
    let ghost base = merged.tree();
    let mut j: usize = 0;
    assert(wv.take(0) =~= Seq::<Seq<Seq<char>>>::empty());
    while j < wrote.len()
        invariant
            j <= wrote@.len(),
            wv == path_views(wrote@),
            base == swept_of(disk, sp, sv),
            sv == path_views(swept@),
            sp == spelling_views(spellings@),
            disk == on_disk.tree(),
            laid_of(base, mine.tree(), wv.take(j as int)) == Ok::<Tree, OccupiedView>(merged.tree()),
        decreases wrote@.len() - j,
    {
        let p = &wrote[j];
        proof {
            assert(wv.take(j + 1).drop_last() =~= wv.take(j as int));
            assert(wv.take(j + 1).last() == p@);
        }
        match generic_get(mine, p) {
            Some(held) => {
                let v = held.copied();
                let ghost before = merged.tree();
                match generic_set(&mut merged, p, v) {
                    Ok(()) => {},
                    Err(why) => {
                        proof {
                            assert(laid_step(before, mine.tree(), p@) == Err::<Tree, OccupiedView>(why@));
                            assert(laid_of(base, mine.tree(), wv.take(j + 1)) == Err::<Tree, OccupiedView>(why@));
                            lemma_refusal_stands(base, mine.tree(), wv, j + 1);
                        }
                        return Err(why);
                    },
                }
            },
            None => {
                let _ = generic_delete(&mut merged, p);
            },
        }
        j = j + 1;
    }
    assert(wv.take(wrote@.len() as int) =~= wv);
    Ok(merged)
}

/// Whether `q` is `p` with more levels after it.
pub open spec fn strictly_under(q: Seq<Seq<char>>, p: Seq<Seq<char>>) -> bool {
    q.len() > p.len() && q.take(p.len() as int) == p
}

proof fn lemma_related_or_apart(q: Seq<Seq<char>>, p: Seq<Seq<char>>)
    ensures
        q == p || strictly_under(q, p) || strictly_under(p, q) || diverge(q, p),
{
    if !diverge(q, p) {
        if q.len() <= p.len() {
            assert(p.take(q.len() as int) =~= q);
            if q.len() == p.len() {
                assert(q =~= p);
            }
        } else {
            assert(q.take(p.len() as int) =~= p);
        }
    }
}

proof fn lemma_under_joined(q: Seq<Seq<char>>, p: Seq<Seq<char>>)
    requires
        strictly_under(q, p),
    ensures
        q == p + q.skip(p.len() as int),
{
    assert(q =~= q.take(p.len() as int) + q.skip(p.len() as int));
}

/// One more place laid over keeps every place laid before it as the store's
/// document has it.
proof fn lemma_step_keeps(m: Tree, mine: Tree, p: Seq<Seq<char>>, q: Seq<Seq<char>>)
    requires
        wf(m),
        wf(mine),
        laid_step(m, mine, p) is Ok,
        at(m, q) == at(mine, q),
    ensures
        at(laid_step(m, mine, p)->Ok_0, q) == at(mine, q),
{
    let r = laid_step(m, mine, p)->Ok_0;
    lemma_related_or_apart(q, p);
    match at(mine, p) {
        Some(v) => {
            if q == p {
                a_write_reads_back_and_leaves_the_rest(m, p, v, q);
            } else if diverge(q, p) {
                a_write_reads_back_and_leaves_the_rest(m, p, v, q);
            } else if strictly_under(p, q) {
                let rest = p.skip(q.len() as int);
                lemma_under_joined(p, q);
                lemma_at_joined(m, q, rest);
                lemma_at_joined(mine, q, rest);
                lemma_set_what_stands(m, p, v);
            } else {
                let rest = q.skip(p.len() as int);
                lemma_under_joined(q, p);
                a_write_reads_back_and_leaves_the_rest(m, p, v, p);
                lemma_at_joined(r, p, rest);
                lemma_at_joined(mine, p, rest);
            }
        },
        None => {
            if p.len() == 0 {
                assert(at(mine, p) == Some(mine));
            } else if q == p {
                a_delete_takes_what_stood_there(m, p);
            } else if diverge(q, p) {
                lemma_delete_leaves_the_rest(m, p, q);
            } else if strictly_under(p, q) {
                let rest = p.skip(q.len() as int);
                lemma_under_joined(p, q);
                lemma_at_joined(m, q, rest);
                lemma_at_joined(mine, q, rest);
                lemma_delete_nothing(m, p);
            } else {
                let rest = q.skip(p.len() as int);
                lemma_under_joined(q, p);
                a_delete_takes_what_stood_there(m, p);
                lemma_at_joined(r, p, rest);
                lemma_at_joined(mine, p, rest);
            }
        },
    }
}

/// One more place laid over leaves every path that parts from it as it was.
proof fn lemma_step_leaves(m: Tree, mine: Tree, p: Seq<Seq<char>>, q: Seq<Seq<char>>)
    requires
        wf(m),
        laid_step(m, mine, p) is Ok,
        diverge(q, p),
    ensures
        at(laid_step(m, mine, p)->Ok_0, q) == at(m, q),
{
    match at(mine, p) {
        Some(v) => {
            a_write_reads_back_and_leaves_the_rest(m, p, v, q);
        },
        None => {
            lemma_delete_leaves_the_rest(m, p, q);
        },
    }
}

proof fn lemma_step_keeps_wf(m: Tree, mine: Tree, p: Seq<Seq<char>>)
    requires
        wf(m),
        wf(mine),
        laid_step(m, mine, p) is Ok,
    ensures
        wf(laid_step(m, mine, p)->Ok_0),
{
    match at(mine, p) {
        Some(v) => {
            lemma_wf_below(mine, p);
            every_change_keeps_names_unique(m, p, v, Seq::empty());
        },
        None => {
            every_change_keeps_names_unique(m, p, m, Seq::empty());
        },
    }
}

proof fn lemma_laid(t: Tree, mine: Tree, wrote: Seq<Seq<Seq<char>>>)
    requires
        wf(t),
        wf(mine),
        laid_of(t, mine, wrote) is Ok,
    ensures
        wf(laid_of(t, mine, wrote)->Ok_0),
        forall|q: Seq<Seq<char>>| #[trigger] wrote.contains(q) ==> at(laid_of(t, mine, wrote)->Ok_0, q) == at(mine, q),
        forall|q: Seq<Seq<char>>|
            (forall|k: int| 0 <= k < wrote.len() ==> diverge(q, #[trigger] wrote[k])) ==> at(laid_of(t, mine, wrote)->Ok_0, q) == at(t, q),
    decreases wrote.len(),
{
    if wrote.len() > 0 {
        let w = wrote.drop_last();
        let p = wrote.last();
        lemma_laid(t, mine, w);
        let m = laid_of(t, mine, w)->Ok_0;
        lemma_step_keeps_wf(m, mine, p);
        assert forall|q: Seq<Seq<char>>| #[trigger] wrote.contains(q) implies at(laid_of(t, mine, wrote)->Ok_0, q) == at(mine, q) by {
            let k = choose|k: int| 0 <= k < wrote.len() && wrote[k] == q;
            if q == p {
                match at(mine, p) {
                    Some(v) => a_write_reads_back_and_leaves_the_rest(m, p, v, p),
                    None => {
                        if p.len() == 0 {
                            assert(at(mine, p) == Some(mine));
                        } else {
                            a_delete_takes_what_stood_there(m, p);
                        }
                    },
                }
            } else {
                assert(k < w.len());
                assert(w[k] == q);
                assert(w.contains(q));
                lemma_step_keeps(m, mine, p, q);
            }
        }
        assert forall|q: Seq<Seq<char>>|
            (forall|k: int| 0 <= k < wrote.len() ==> diverge(q, #[trigger] wrote[k])) implies at(laid_of(t, mine, wrote)->Ok_0, q) == at(t, q) by {
            assert forall|k: int| 0 <= k < w.len() implies diverge(q, #[trigger] w[k]) by {
                assert(w[k] == wrote[k]);
            }
            assert(diverge(q, wrote[wrote.len() - 1]));
            lemma_step_leaves(m, mine, p, q);
        }
    }
}

proof fn lemma_off_beside_wf(t: Tree, keys: Seq<Seq<Seq<char>>>, sp: Spellings, u: Seq<Seq<char>>)
    requires
        wf(t),
    ensures
        wf(off_beside(t, keys, sp, u)),
    decreases keys.len(),
{
    if keys.len() > 0 {
        lemma_off_beside_wf(t, keys.drop_last(), sp, u);
        let m = off_beside(t, keys.drop_last(), sp, u);
        every_change_keeps_names_unique(m, keys.last(), m, Seq::empty());
    }
}

proof fn lemma_off_beside_leaves(t: Tree, keys: Seq<Seq<Seq<char>>>, sp: Spellings, u: Seq<Seq<char>>, q: Seq<Seq<char>>)
    requires
        wf(t),
        q.len() > 0,
        !beside(sp, u, q[0]),
    ensures
        at(off_beside(t, keys, sp, u), q) == at(t, q),
    decreases keys.len(),
{
    if keys.len() > 0 {
        lemma_off_beside_leaves(t, keys.drop_last(), sp, u, q);
        lemma_off_beside_wf(t, keys.drop_last(), sp, u);
        let m = off_beside(t, keys.drop_last(), sp, u);
        let k = keys.last();
        if k.len() == 1 && beside(sp, u, k[0]) {
            assert(k[0] != q[0]);
            assert(diverge(q, k));
            lemma_delete_leaves_the_rest(m, k, q);
        }
    }
}

proof fn lemma_swept_wf(t: Tree, sp: Spellings, swept: Seq<Seq<Seq<char>>>)
    requires
        wf(t),
    ensures
        wf(swept_of(t, sp, swept)),
    decreases swept.len(),
{
    if swept.len() > 0 {
        lemma_swept_wf(t, sp, swept.drop_last());
        let m = swept_of(t, sp, swept.drop_last());
        every_change_keeps_names_unique(m, swept.last(), t, Seq::empty());
        let t1 = delete_subtree_at(m, swept.last(), 0);
        lemma_off_beside_wf(t1, root_keys(t1), sp, swept.last());
    }
}

proof fn lemma_swept(t: Tree, sp: Spellings, swept: Seq<Seq<Seq<char>>>, q: Seq<Seq<char>>)
    requires
        wf(t),
        forall|k: int| 0 <= k < swept.len() ==> diverge(q, #[trigger] swept[k]),
        forall|k: int| 0 <= k < swept.len() ==> !beside(sp, #[trigger] swept[k], q[0]),
    ensures
        at(swept_of(t, sp, swept), q) == at(t, q),
    decreases swept.len(),
{
    if swept.len() > 0 {
        let w = swept.drop_last();
        let u = swept.last();
        assert forall|k: int| 0 <= k < w.len() implies diverge(q, #[trigger] w[k]) by {
            assert(w[k] == swept[k]);
        }
        assert forall|k: int| 0 <= k < w.len() implies !beside(sp, #[trigger] w[k], q[0]) by {
            assert(w[k] == swept[k]);
        }
        lemma_swept(t, sp, w, q);
        lemma_swept_wf(t, sp, w);
        let m = swept_of(t, sp, w);
        assert(diverge(q, swept[swept.len() - 1]));
        assert(!beside(sp, swept[swept.len() - 1], q[0]));
        lemma_sweep_leaves_the_rest(m, u, q);
        every_change_keeps_names_unique(m, u, t, Seq::empty());
        let t1 = delete_subtree_at(m, u, 0);
        lemma_off_beside_leaves(t1, root_keys(t1), sp, u, q);
    }
}

/// A lay-over that goes through keeps every place this store wrote as the
/// store's own document has it, and every path that parts from all it wrote
/// and swept, and does not begin at a whole key under a swept level, as the
/// file has it.
pub proof fn a_lay_over_keeps_both_sides(
    on_disk: Tree,
    mine: Tree,
    sp: Spellings,
    swept: Seq<Seq<Seq<char>>>,
    wrote: Seq<Seq<Seq<char>>>,
    q: Seq<Seq<char>>,
)
    requires
        wf(on_disk),
        wf(mine),
        lay_over_of(on_disk, mine, sp, swept, wrote) is Ok,
    ensures
        wrote.contains(q) ==> at(lay_over_of(on_disk, mine, sp, swept, wrote)->Ok_0, q) == at(mine, q),
        (forall|k: int| 0 <= k < wrote.len() ==> diverge(q, #[trigger] wrote[k]))
            && (forall|k: int| 0 <= k < swept.len() ==> diverge(q, #[trigger] swept[k]))
            && (forall|k: int| 0 <= k < swept.len() ==> !beside(sp, #[trigger] swept[k], q[0]))
            ==> at(lay_over_of(on_disk, mine, sp, swept, wrote)->Ok_0, q) == at(on_disk, q),
{
    lemma_swept_wf(on_disk, sp, swept);
    lemma_laid(swept_of(on_disk, sp, swept), mine, wrote);
    if (forall|k: int| 0 <= k < swept.len() ==> diverge(q, #[trigger] swept[k]))
        && (forall|k: int| 0 <= k < swept.len() ==> !beside(sp, #[trigger] swept[k], q[0])) {
        lemma_swept(on_disk, sp, swept, q);
    }
}

/// A whole key at the root that spells a path strictly under a level is gone
/// once the level is swept.
pub proof fn a_swept_level_takes_its_whole_keys(t: Tree, sp: Spellings, u: Seq<Seq<char>>, n: Seq<char>)
    requires
        wf(t),
        beside(sp, u, n),
    ensures
        at(swept_step(t, sp, u), seq![n]) is None,
{
    every_change_keeps_names_unique(t, u, t, Seq::empty());
    let t1 = delete_subtree_at(t, u, 0);
    lemma_off_beside_gone(t1, root_keys(t1), sp, u, n);
    if at(t1, seq![n]) is Some {
        lemma_root_keys_cover(t1, n);
    }
}

proof fn lemma_root_keys_cover(t: Tree, n: Seq<char>)
    requires
        at(t, seq![n]) is Some,
    ensures
        root_keys(t).contains(seq![n]),
{
    let one = seq![n];
    assert(one[0] == n);
    assert(one.drop_first() =~= Seq::<Seq<char>>::empty());
    assert(at(t, Seq::<Seq<char>>::empty()) == Some(t));
    match t {
        Tree::Level(es) => {
            lemma_find(es, n);
            let i = find(es, n);
            assert(child(t, n) is Some);
            assert(0 <= i < es.len());
            let s = scanned(t, Seq::empty());
            assert(s[i].0 == Seq::<Seq<char>>::empty().push(es[i].0));
            assert(Seq::<Seq<char>>::empty().push(es[i].0) =~= one);
            assert(root_keys(t)[i] == one);
        },
        Tree::Leaf(_) => {},
    }
}

proof fn lemma_off_beside_gone(t: Tree, keys: Seq<Seq<Seq<char>>>, sp: Spellings, u: Seq<Seq<char>>, n: Seq<char>)
    requires
        wf(t),
        beside(sp, u, n),
    ensures
        keys.contains(seq![n]) ==> at(off_beside(t, keys, sp, u), seq![n]) is None,
        at(t, seq![n]) is None ==> at(off_beside(t, keys, sp, u), seq![n]) is None,
    decreases keys.len(),
{
    let one = seq![n];
    if keys.len() > 0 {
        let w = keys.drop_last();
        lemma_off_beside_gone(t, w, sp, u, n);
        lemma_off_beside_wf(t, w, sp, u);
        let m = off_beside(t, w, sp, u);
        let k = keys.last();
        if keys.contains(one) && !w.contains(one) {
            let i = choose|i: int| 0 <= i < keys.len() && keys[i] == one;
            if i < w.len() {
                assert(w[i] == one);
            }
            assert(k == one);
            assert(k[0] == n);
            a_delete_takes_what_stood_there(m, k);
        } else if k.len() == 1 && beside(sp, u, k[0]) {
            if k == one {
                a_delete_takes_what_stood_there(m, k);
            } else {
                assert(k[0] != n) by {
                    if k[0] == n {
                        assert(k =~= one);
                    }
                }
                assert(diverge(one, k)) by {
                    assert(one[0] != k[0]);
                }
                lemma_delete_leaves_the_rest(m, k, one);
            }
        }
    }
}

} // verus!
