//! A store with no file: one value per path, held in path order, and the
//! namespaces that have been seeded. Nothing outlives it, so every write has
//! landed by the time it returns.

use crate::buffer::{distinct_keys, keyed, kept, lemma_keyed, lemma_keyed_filter, under};
use crate::overlay::sorted_keys;
use crate::path::{
    is_under, lemma_path_less_irreflexive, lemma_path_less_total,
    lemma_path_less_transitive, path_less, StorePath,
};
use vstd::prelude::*;

verus! {

/// Values, as paths and bytes.
pub open spec fn held_views(v: Seq<(StorePath, Vec<u8>)>) -> Seq<(Seq<Seq<char>>, Seq<u8>)> {
    v.map_values(|e: (StorePath, Vec<u8>)| (e.0@, e.1@))
}

/// Paths, as their levels.
pub open spec fn seeded_views(v: Seq<StorePath>) -> Seq<Seq<Seq<char>>> {
    v.map_values(|p: StorePath| p@)
}

/// What a write did.
#[derive(Debug, PartialEq, Eq)]
pub enum Wrote {
    /// The same bytes were already there: nothing changed, and nobody is told.
    Unchanged,
    /// The value changed; what stood there before, if anything did.
    Changed(Option<Vec<u8>>),
}

/// Every value the store holds, in path order, and the namespaces seeded.
pub struct Held {
    data: Vec<(StorePath, Vec<u8>)>,
    seeded: Vec<StorePath>,
}

pub struct HeldView {
    pub data: Map<Seq<Seq<char>>, Seq<u8>>,
    pub seeded: Set<Seq<Seq<char>>>,
}

impl View for Held {
    type V = HeldView;

    closed spec fn view(&self) -> HeldView {
        HeldView {
            data: keyed(held_views(self.data@)),
            seeded: seeded_views(self.seeded@).to_set(),
        }
    }
}

proof fn lemma_sorted_distinct(s: Seq<(Seq<Seq<char>>, Seq<u8>)>)
    requires
        sorted_keys(s),
    ensures
        distinct_keys(s),
{
    assert forall|i: int, j: int| 0 <= i < j < s.len() implies s[i].0 != s[j].0 by {
        lemma_path_less_irreflexive(s[i].0);
    }
}

proof fn lemma_sorted_filter(s: Seq<(Seq<Seq<char>>, Seq<u8>)>, keep: spec_fn((Seq<Seq<char>>, Seq<u8>)) -> bool)
    requires
        sorted_keys(s),
    ensures
        sorted_keys(s.filter(keep)),
        forall|i: int| 0 <= i < s.filter(keep).len() ==> s.contains(#[trigger] s.filter(keep)[i]),
    decreases s.len(),
{
    reveal(Seq::filter);
    if s.len() > 0 {
        let r = s.drop_last();
        let x = s[s.len() - 1];
        assert(s.last() == x);
        assert(sorted_keys(r));
        lemma_sorted_filter(r, keep);
        let f = r.filter(keep);
        assert forall|i: int| 0 <= i < f.len() implies s.contains(#[trigger] f[i]) by {
            let j = choose|j: int| 0 <= j < r.len() && r[j] == f[i];
            assert(s[j] == f[i]);
        }
        if keep(x) {
            assert(s.filter(keep) == f.push(x));
            assert forall|a: int, b: int| 0 <= a < b < f.push(x).len() implies path_less(f.push(x)[a].0, f.push(x)[b].0) by {
                if b == f.len() {
                    let j = choose|j: int| 0 <= j < r.len() && r[j] == f[a];
                    assert(s[j] == f[a]);
                }
            }
            assert forall|i: int| 0 <= i < f.push(x).len() implies s.contains(#[trigger] f.push(x)[i]) by {
                if i < f.len() {
                    assert(f.push(x)[i] == f[i]);
                } else {
                    assert(s[s.len() - 1] == x);
                }
            }
        } else {
            assert(s.filter(keep) == f);
        }
    }
}

/// Whether an entry lies outside `prefix`.
pub open spec fn outside<V>(prefix: Seq<Seq<char>>) -> spec_fn((Seq<Seq<char>>, V)) -> bool {
    |e: (Seq<Seq<char>>, V)| !is_under(e.0, prefix)
}

impl Held {
    #[verifier::type_invariant]
    spec fn well_formed(self) -> bool {
        sorted_keys(held_views(self.data@))
    }

    /// Nothing held, nothing seeded.
    pub fn new() -> (r: Held)
        ensures
            r@.data == Map::<Seq<Seq<char>>, Seq<u8>>::empty(),
            r@.seeded == Set::<Seq<Seq<char>>>::empty(),
    {
        let r = Held { data: Vec::new(), seeded: Vec::new() };
        assert(held_views(r.data@) =~= Seq::empty());
        assert(seeded_views(r.seeded@) =~= Seq::empty());
        r
    }

    /// Where `path` stands, if it is held, or where it would go.
    fn position(&self, path: &StorePath) -> (r: (usize, bool))
        ensures
            r.0 <= self.data@.len(),
            forall|j: int| 0 <= j < r.0 ==> path_less(#[trigger] held_views(self.data@)[j].0, path@),
            r.1 ==> r.0 < self.data@.len() && held_views(self.data@)[r.0 as int].0 == path@,
            !r.1 ==> forall|j: int| r.0 <= j < self.data@.len() ==> path_less(path@, #[trigger] held_views(self.data@)[j].0),
    {
        proof {
            use_type_invariant(self);
        }
        let ghost s = held_views(self.data@);
        let mut k: usize = 0;
        while k < self.data.len() && self.data[k].0.precedes(path)
            invariant
                s == held_views(self.data@),
                sorted_keys(s),
                k <= s.len(),
                forall|j: int| 0 <= j < k ==> path_less(#[trigger] s[j].0, path@),
            decreases s.len() - k,
        {
            k = k + 1;
        }
        if k < self.data.len() && self.data[k].0.same_as(path) {
            return (k, true);
        }
        proof {
            assert forall|j: int| k <= j < s.len() implies path_less(path@, #[trigger] s[j].0) by {
                assert(!path_less(s[k as int].0, path@));
                assert(s[k as int].0 != path@);
                lemma_path_less_total(path@, s[k as int].0);
                if j > k {
                    lemma_path_less_transitive(path@, s[k as int].0, s[j].0);
                }
            }
        }
        (k, false)
    }

    /// The value at `path`, if one is held.
    pub fn get(&self, path: &StorePath) -> (r: Option<&Vec<u8>>)
        ensures
            match r {
                Some(bytes) => self@.data.contains_key(path@) && self@.data[path@] == bytes@,
                None => !self@.data.contains_key(path@),
            },
    {
        proof {
            use_type_invariant(self);
            lemma_sorted_distinct(held_views(self.data@));
            lemma_keyed(held_views(self.data@));
        }
        let (k, found) = self.position(path);
        if found {
            Some(&self.data[k].1)
        } else {
            proof {
                let s = held_views(self.data@);
                assert forall|j: int| 0 <= j < s.len() implies s[j].0 != path@ by {
                    lemma_path_less_irreflexive(path@);
                }
            }
            None
        }
    }

    /// Writes `bytes` at `path`. The same bytes already there change nothing;
    /// otherwise the store holds them, and what stood there is handed back.
    pub fn set(&mut self, path: &StorePath, bytes: Vec<u8>) -> (r: Wrote)
        ensures
            final(self)@.seeded == old(self)@.seeded,
            final(self)@.data == old(self)@.data.insert(path@, bytes@),
            match r {
                Wrote::Unchanged => old(self)@.data.contains_key(path@) && old(self)@.data[path@] == bytes@,
                Wrote::Changed(was) => !(old(self)@.data.contains_key(path@) && old(self)@.data[path@] == bytes@)
                    && match was {
                        Some(w) => old(self)@.data.contains_key(path@) && old(self)@.data[path@] == w@,
                        None => !old(self)@.data.contains_key(path@),
                    },
            },
    {
        proof {
            use_type_invariant(&*self);
        }
        let ghost s = held_views(self.data@);
        proof {
            lemma_sorted_distinct(s);
            lemma_keyed(s);
        }
        let (k, found) = self.position(path);
        let mut data: Vec<(StorePath, Vec<u8>)> = Vec::new();
        std::mem::swap(&mut data, &mut self.data);
        if found {
            if crate::buffer::same_bytes(&data[k].1, &bytes) {
                proof {
                    assert(s[k as int].1 == bytes@);
                    assert(keyed(s).insert(path@, bytes@) =~= keyed(s));
                }
                self.data = data;
                return Wrote::Unchanged;
            }
            let entry = (path.copied(), bytes);
            let ghost e = (entry.0@, entry.1@);
            let (_, old_bytes) = data.remove(k);
            data.insert(k, entry);
            proof {
                let t = held_views(data@);
                assert(t =~= s.update(k as int, e));
                assert forall|a: int, b: int| 0 <= a < b < t.len() implies path_less(t[a].0, t[b].0) by {
                    assert(t[a].0 == s[a].0);
                    assert(t[b].0 == s[b].0);
                }
                lemma_sorted_distinct(t);
                lemma_keyed(t);
                assert forall|q: Seq<Seq<char>>| #[trigger] keyed(t).contains_key(q) <==> keyed(s).insert(path@, e.1).contains_key(q) by {
                    if keyed(s).contains_key(q) {
                        let j = choose|j: int| 0 <= j < s.len() && s[j].0 == q;
                        assert(t[j].0 == q);
                    }
                    if keyed(t).contains_key(q) {
                        let j = choose|j: int| 0 <= j < t.len() && t[j].0 == q;
                        assert(s[j].0 == q);
                    }
                }
                assert forall|q: Seq<Seq<char>>| #[trigger] keyed(t).contains_key(q) implies keyed(t)[q] == keyed(s).insert(path@, e.1)[q] by {
                    let j = choose|j: int| 0 <= j < t.len() && t[j].0 == q;
                    assert(keyed(t)[t[j].0] == t[j].1);
                    if j != k {
                        assert(t[j] == s[j]);
                        assert(keyed(s)[s[j].0] == s[j].1);
                    }
                }
                assert(keyed(t) =~= keyed(s).insert(path@, e.1));
            }
            self.data = data;
            Wrote::Changed(Some(old_bytes))
        } else {
            let entry = (path.copied(), bytes);
            let ghost e = (entry.0@, entry.1@);
            data.insert(k, entry);
            proof {
                let t = held_views(data@);
                assert(t =~= s.insert(k as int, e));
                assert forall|a: int, b: int| 0 <= a < b < t.len() implies path_less(t[a].0, t[b].0) by {
                    if b < k {
                        assert(t[a] == s[a] && t[b] == s[b]);
                    } else if b == k {
                        assert(t[a] == s[a]);
                    } else if a == k {
                        assert(t[b] == s[b - 1]);
                    } else if a < k {
                        assert(t[a] == s[a] && t[b] == s[b - 1]);
                        lemma_path_less_transitive(s[a].0, path@, s[b - 1].0);
                    } else {
                        assert(t[a] == s[a - 1] && t[b] == s[b - 1]);
                    }
                }
                lemma_sorted_distinct(t);
                lemma_keyed(t);
                assert(!keyed(s).contains_key(path@)) by {
                    if keyed(s).contains_key(path@) {
                        let j = choose|j: int| 0 <= j < s.len() && s[j].0 == path@;
                        lemma_path_less_irreflexive(path@);
                    }
                }
                assert forall|q: Seq<Seq<char>>| #[trigger] keyed(t).contains_key(q) <==> keyed(s).insert(path@, e.1).contains_key(q) by {
                    if keyed(s).contains_key(q) {
                        let j = choose|j: int| 0 <= j < s.len() && s[j].0 == q;
                        if j < k {
                            assert(t[j].0 == q);
                        } else {
                            assert(t[j + 1].0 == q);
                        }
                    }
                    if keyed(t).contains_key(q) && q != path@ {
                        let j = choose|j: int| 0 <= j < t.len() && t[j].0 == q;
                        if j < k {
                            assert(s[j].0 == q);
                        } else {
                            assert(s[j - 1].0 == q);
                        }
                    }
                    assert(t[k as int].0 == path@);
                }
                assert forall|q: Seq<Seq<char>>| #[trigger] keyed(t).contains_key(q) implies keyed(t)[q] == keyed(s).insert(path@, e.1)[q] by {
                    let j = choose|j: int| 0 <= j < t.len() && t[j].0 == q;
                    assert(keyed(t)[t[j].0] == t[j].1);
                    if j < k {
                        assert(t[j] == s[j]);
                        assert(keyed(s)[s[j].0] == s[j].1);
                    } else if j > k {
                        assert(t[j] == s[j - 1]);
                        assert(keyed(s)[s[j - 1].0] == s[j - 1].1);
                    }
                }
                assert(keyed(t) =~= keyed(s).insert(path@, e.1));
            }
            self.data = data;
            Wrote::Changed(None)
        }
    }

    /// Takes the value at `path` out, and hands back what stood there.
    pub fn delete(&mut self, path: &StorePath) -> (r: Option<Vec<u8>>)
        ensures
            final(self)@.seeded == old(self)@.seeded,
            final(self)@.data == old(self)@.data.remove(path@),
            match r {
                Some(was) => old(self)@.data.contains_key(path@) && old(self)@.data[path@] == was@,
                None => !old(self)@.data.contains_key(path@),
            },
    {
        proof {
            use_type_invariant(&*self);
        }
        let ghost s = held_views(self.data@);
        proof {
            lemma_sorted_distinct(s);
            lemma_keyed(s);
        }
        let (k, found) = self.position(path);
        if !found {
            proof {
                assert forall|j: int| 0 <= j < s.len() implies s[j].0 != path@ by {
                    lemma_path_less_irreflexive(path@);
                }
                assert(keyed(s).remove(path@) =~= keyed(s));
            }
            return None;
        }
        let mut data: Vec<(StorePath, Vec<u8>)> = Vec::new();
        std::mem::swap(&mut data, &mut self.data);
        let (_, was) = data.remove(k);
        proof {
            let t = held_views(data@);
            assert(t =~= s.remove(k as int));
            assert forall|a: int, b: int| 0 <= a < b < t.len() implies path_less(t[a].0, t[b].0) by {
                let a0 = if a < k { a } else { a + 1 };
                let b0 = if b < k { b } else { b + 1 };
                assert(t[a] == s[a0]);
                assert(t[b] == s[b0]);
            }
            lemma_sorted_distinct(t);
            lemma_keyed(t);
            assert forall|q: Seq<Seq<char>>| #[trigger] keyed(t).contains_key(q) <==> keyed(s).remove(path@).contains_key(q) by {
                if keyed(s).contains_key(q) && q != path@ {
                    let j = choose|j: int| 0 <= j < s.len() && s[j].0 == q;
                    if j < k {
                        assert(t[j].0 == q);
                    } else {
                        assert(j != k);
                        assert(t[j - 1].0 == q);
                    }
                }
                if keyed(t).contains_key(q) {
                    let j = choose|j: int| 0 <= j < t.len() && t[j].0 == q;
                    let j0 = if j < k { j } else { j + 1 };
                    assert(s[j0].0 == q);
                    assert(j0 != k);
                }
            }
            assert forall|q: Seq<Seq<char>>| #[trigger] keyed(t).contains_key(q) implies keyed(t)[q] == keyed(s).remove(path@)[q] by {
                let j = choose|j: int| 0 <= j < t.len() && t[j].0 == q;
                let j0 = if j < k { j } else { j + 1 };
                assert(t[j] == s[j0]);
                assert(keyed(t)[t[j].0] == t[j].1);
                assert(keyed(s)[s[j0].0] == s[j0].1);
            }
            assert(keyed(t) =~= keyed(s).remove(path@));
        }
        self.data = data;
        Some(was)
    }

    /// Every value at or under `prefix`, in path order.
    pub fn scan_prefix(&self, prefix: &StorePath) -> (r: Vec<(StorePath, Vec<u8>)>)
        ensures
            sorted_keys(held_views(r@)),
            keyed(held_views(r@)) == kept(self@.data, under(prefix@)),
    {
        proof {
            use_type_invariant(self);
        }
        let ghost all = held_views(self.data@);
        let mut r: Vec<(StorePath, Vec<u8>)> = Vec::new();
        let mut i: usize = 0;
        proof {
            reveal(Seq::filter);
            assert(all.take(0) =~= Seq::empty());
            assert(held_views(r@) =~= Seq::empty());
        }
        while i < self.data.len()
            invariant
                i <= self.data@.len(),
                all == held_views(self.data@),
                held_views(r@) == all.take(i as int).filter(under(prefix@)),
            decreases self.data@.len() - i,
        {
            let ghost before = held_views(r@);
            if self.data[i].0.starts_with(prefix) {
                r.push((self.data[i].0.copied(), crate::buffer::bytes_copied(&self.data[i].1)));
                assert(held_views(r@) =~= before.push(all[i as int]));
            }
            proof {
                reveal(Seq::filter);
                assert(all.take(i + 1).drop_last() =~= all.take(i as int));
                assert(all.take(i + 1).last() == all[i as int]);
            }
            i = i + 1;
        }
        proof {
            assert(all.take(self.data@.len() as int) =~= all);
            lemma_sorted_filter(all, under(prefix@));
            lemma_sorted_distinct(all);
            lemma_keyed_filter(all, under(prefix@));
        }
        r
    }

    /// The paths held at or under `prefix`, in path order.
    pub fn scan_keys(&self, prefix: &StorePath) -> (r: Vec<StorePath>)
        ensures
            forall|i: int, j: int| 0 <= i < j < r@.len() ==> path_less(r@[i]@, r@[j]@),
            forall|q: Seq<Seq<char>>| (exists|i: int| 0 <= i < r@.len() && #[trigger] r@[i]@ == q)
                <==> kept(self@.data, under(prefix@)).contains_key(q),
    {
        let found = self.scan_prefix(prefix);
        let ghost fv = held_views(found@);
        proof {
            lemma_sorted_distinct(fv);
            lemma_keyed(fv);
        }
        let mut r: Vec<StorePath> = Vec::new();
        let mut i: usize = 0;
        while i < found.len()
            invariant
                i <= found@.len(),
                fv == held_views(found@),
                r@.len() == i,
                forall|j: int| 0 <= j < i ==> #[trigger] r@[j]@ == fv[j].0,
            decreases found@.len() - i,
        {
            r.push(found[i].0.copied());
            i = i + 1;
        }
        proof {
            assert forall|q: Seq<Seq<char>>| (exists|i: int| 0 <= i < r@.len() && #[trigger] r@[i]@ == q)
                <==> kept(self@.data, under(prefix@)).contains_key(q) by {
                if exists|i: int| 0 <= i < r@.len() && #[trigger] r@[i]@ == q {
                    let i = choose|i: int| 0 <= i < r@.len() && #[trigger] r@[i]@ == q;
                    assert(fv[i].0 == q);
                }
                if keyed(fv).contains_key(q) {
                    let i = choose|i: int| 0 <= i < fv.len() && fv[i].0 == q;
                    assert(r@[i]@ == q);
                }
            }
            assert forall|a: int, b: int| 0 <= a < b < r@.len() implies path_less(r@[a]@, r@[b]@) by {
                assert(r@[a]@ == fv[a].0);
                assert(r@[b]@ == fv[b].0);
            }
        }
        r
    }

    /// Takes out every value at or under `prefix`.
    pub fn delete_prefix(&mut self, prefix: &StorePath)
        ensures
            final(self)@.seeded == old(self)@.seeded,
            final(self)@.data == kept(old(self)@.data, outside(prefix@)),
    {
        proof {
            use_type_invariant(&*self);
        }
        let ghost all = held_views(self.data@);
        let mut kept_data: Vec<(StorePath, Vec<u8>)> = Vec::new();
        let mut i: usize = 0;
        proof {
            reveal(Seq::filter);
            assert(all.take(0) =~= Seq::empty());
            assert(held_views(kept_data@) =~= Seq::empty());
        }
        while i < self.data.len()
            invariant
                i <= self.data@.len(),
                all == held_views(self.data@),
                held_views(kept_data@) == all.take(i as int).filter(outside(prefix@)),
            decreases self.data@.len() - i,
        {
            let ghost before = held_views(kept_data@);
            if !self.data[i].0.starts_with(prefix) {
                kept_data.push((self.data[i].0.copied(), crate::buffer::bytes_copied(&self.data[i].1)));
                assert(held_views(kept_data@) =~= before.push(all[i as int]));
            }
            proof {
                reveal(Seq::filter);
                assert(all.take(i + 1).drop_last() =~= all.take(i as int));
                assert(all.take(i + 1).last() == all[i as int]);
            }
            i = i + 1;
        }
        proof {
            assert(all.take(self.data@.len() as int) =~= all);
            lemma_sorted_filter(all, outside(prefix@));
            lemma_sorted_distinct(all);
            lemma_keyed_filter(all, outside(prefix@));
        }
        self.data = kept_data;
    }

    /// Whether `namespace` has been seeded.
    pub fn is_initialized(&self, namespace: &StorePath) -> (r: bool)
        ensures
            r == self@.seeded.contains(namespace@),
    {
        let ghost v = seeded_views(self.seeded@);
        let mut i: usize = 0;
        while i < self.seeded.len()
            invariant
                i <= self.seeded@.len(),
                v == seeded_views(self.seeded@),
                forall|j: int| 0 <= j < i ==> v[j] != namespace@,
            decreases self.seeded@.len() - i,
        {
            if self.seeded[i].same_as(namespace) {
                assert(v[i as int] == namespace@);
                return true;
            }
            i = i + 1;
        }
        proof {
            if v.to_set().contains(namespace@) {
                let j = choose|j: int| 0 <= j < v.len() && v[j] == namespace@;
            }
        }
        false
    }

    /// Marks `namespace` as seeded or not.
    pub fn set_initialized(&mut self, namespace: &StorePath, seeded: bool)
        ensures
            final(self)@.data == old(self)@.data,
            final(self)@.seeded == if seeded {
                old(self)@.seeded.insert(namespace@)
            } else {
                old(self)@.seeded.remove(namespace@)
            },
    {
        proof {
            use_type_invariant(&*self);
        }
        let ghost v = seeded_views(self.seeded@);
        let mut rest: Vec<StorePath> = Vec::new();
        let mut i: usize = 0;
        while i < self.seeded.len()
            invariant
                i <= self.seeded@.len(),
                v == seeded_views(self.seeded@),
                forall|w: int| 0 <= w < rest@.len() ==> #[trigger] rest@[w]@ != namespace@ && v.contains(rest@[w]@),
                forall|j: int| 0 <= j < i && v[j] != namespace@ ==> seeded_views(rest@).contains(#[trigger] v[j]),
            decreases self.seeded@.len() - i,
        {
            if !self.seeded[i].same_as(namespace) {
                let ghost before = seeded_views(rest@);
                rest.push(self.seeded[i].copied());
                proof {
                    let after = seeded_views(rest@);
                    assert(after =~= before.push(v[i as int]));
                    assert forall|j: int| 0 <= j <= i && v[j] != namespace@ implies after.contains(#[trigger] v[j]) by {
                        if j < i {
                            let w = choose|w: int| 0 <= w < before.len() && before[w] == v[j];
                            assert(after[w] == v[j]);
                        } else {
                            assert(after[before.len() as int] == v[j]);
                        }
                    }
                }
            }
            i = i + 1;
        }
        let ghost kept_v = seeded_views(rest@);
        proof {
            assert forall|w: int| 0 <= w < kept_v.len() implies #[trigger] kept_v[w] != namespace@ && v.contains(kept_v[w]) by {
                assert(kept_v[w] == rest@[w]@);
            }
        }
        if seeded {
            rest.push(namespace.copied());
        }
        proof {
            let after = seeded_views(rest@);
            if seeded {
                assert(after =~= kept_v.push(namespace@));
            } else {
                assert(after =~= kept_v);
            }
            let target = if seeded { v.to_set().insert(namespace@) } else { v.to_set().remove(namespace@) };
            assert forall|q: Seq<Seq<char>>| after.to_set().contains(q) <==> target.contains(q) by {
                if after.to_set().contains(q) {
                    let w = choose|w: int| 0 <= w < after.len() && after[w] == q;
                    if w < kept_v.len() {
                        assert(after[w] == kept_v[w]);
                        assert(kept_v[w] != namespace@ && v.contains(kept_v[w]));
                    }
                }
                if target.contains(q) {
                    if q == namespace@ {
                        assert(after[after.len() - 1] == q);
                    } else {
                        let j = choose|j: int| 0 <= j < v.len() && v[j] == q;
                        assert(kept_v.contains(v[j]));
                        let w = choose|w: int| 0 <= w < kept_v.len() && #[trigger] kept_v[w] == v[j];
                        assert(after[w] == q);
                    }
                }
            }
            assert(after.to_set() =~= target);
        }
        self.seeded = rest;
    }
}

/// A store with no file reads back what was written to it, and what was
/// deleted reads as nothing.
pub proof fn what_is_written_reads_back(m: Map<Seq<Seq<char>>, Seq<u8>>, path: Seq<Seq<char>>, bytes: Seq<u8>, other: Seq<Seq<char>>)
    ensures
        m.insert(path, bytes).contains_key(path) && m.insert(path, bytes)[path] == bytes,
        !m.remove(path).contains_key(path),
        other != path ==> m.insert(path, bytes).contains_key(other) == m.contains_key(other)
            && m.remove(path).contains_key(other) == m.contains_key(other),
        other != path && m.contains_key(other) ==> m.insert(path, bytes)[other] == m[other] && m.remove(path)[other] == m[other],
{
}

} // verus!
