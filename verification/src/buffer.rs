//! What a store has written and not yet saved, and how a read sees it laid
//! over what the engine already holds.

use crate::path::{is_under, StorePath};
use vstd::prelude::*;

verus! {

/// A list of entries, each under a path, read as the map it describes.
pub open spec fn keyed<K, V>(s: Seq<(K, V)>) -> Map<K, V>
    decreases s.len(),
{
    if s.len() == 0 {
        Map::empty()
    } else {
        keyed(s.drop_last()).insert(s[s.len() - 1].0, s[s.len() - 1].1)
    }
}

/// No path is listed twice.
pub open spec fn distinct_keys<K, V>(s: Seq<(K, V)>) -> bool {
    forall|i: int, j: int| 0 <= i < j < s.len() ==> s[i].0 != s[j].0
}

pub proof fn lemma_keyed<K, V>(s: Seq<(K, V)>)
    requires
        distinct_keys(s),
    ensures
        forall|k: K| #[trigger] keyed(s).contains_key(k) <==> exists|i: int| 0 <= i < s.len() && s[i].0 == k,
        forall|i: int| 0 <= i < s.len() ==> #[trigger] keyed(s)[s[i].0] == s[i].1,
        keyed(s).dom().finite(),
        keyed(s).dom().len() == s.len(),
    decreases s.len(),
{
    if s.len() > 0 {
        let r = s.drop_last();
        let last = s[s.len() - 1];
        lemma_keyed(r);
        assert forall|k: K| #[trigger] keyed(s).contains_key(k) <==> exists|i: int| 0 <= i < s.len() && s[i].0 == k by {
            if keyed(r).contains_key(k) {
                let i = choose|i: int| 0 <= i < r.len() && r[i].0 == k;
                assert(s[i].0 == k);
            }
            if exists|i: int| 0 <= i < s.len() && s[i].0 == k {
                let i = choose|i: int| 0 <= i < s.len() && s[i].0 == k;
                if i < s.len() - 1 {
                    assert(r[i].0 == k);
                }
            }
        }
        assert forall|i: int| 0 <= i < s.len() implies #[trigger] keyed(s)[s[i].0] == s[i].1 by {
            if i < s.len() - 1 {
                assert(r[i] == s[i]);
            }
        }
        if keyed(r).contains_key(last.0) {
            let i = choose|i: int| 0 <= i < r.len() && r[i].0 == last.0;
            assert(s[i].0 == s[s.len() - 1].0);
        }
    }
}

pub proof fn lemma_keyed_finite<K, V>(s: Seq<(K, V)>)
    ensures
        keyed(s).dom().finite(),
    decreases s.len(),
{
    if s.len() > 0 {
        lemma_keyed_finite(s.drop_last());
    }
}

/// An entry in front of a list that does not name its path is the list's map
/// with that entry added.
pub proof fn lemma_keyed_front<K, V>(x: (K, V), rest: Seq<(K, V)>)
    requires
        distinct_keys(seq![x] + rest),
    ensures
        keyed(seq![x] + rest) == keyed(rest).insert(x.0, x.1),
        !keyed(rest).contains_key(x.0),
{
    let s = seq![x] + rest;
    assert(distinct_keys(rest)) by {
        assert forall|i: int, j: int| 0 <= i < j < rest.len() implies rest[i].0 != rest[j].0 by {
            assert(s[i + 1] == rest[i]);
            assert(s[j + 1] == rest[j]);
        }
    }
    lemma_keyed(s);
    lemma_keyed(rest);
    if keyed(rest).contains_key(x.0) {
        let i = choose|i: int| 0 <= i < rest.len() && rest[i].0 == x.0;
        assert(s[i + 1].0 == s[0].0);
    }
    assert forall|k: K| #[trigger] keyed(s).contains_key(k) <==> keyed(rest).insert(x.0, x.1).contains_key(k) by {
        if keyed(rest).contains_key(k) {
            let i = choose|i: int| 0 <= i < rest.len() && rest[i].0 == k;
            assert(s[i + 1].0 == k);
        }
        if keyed(s).contains_key(k) && k != x.0 {
            let i = choose|i: int| 0 <= i < s.len() && s[i].0 == k;
            assert(rest[i - 1].0 == k);
        }
        assert(s[0].0 == x.0);
    }
    assert forall|k: K| #[trigger] keyed(s).contains_key(k) implies keyed(s)[k] == keyed(rest).insert(x.0, x.1)[k] by {
        if k == x.0 {
            assert(s[0] == x);
        } else {
            let i = choose|i: int| 0 <= i < s.len() && s[i].0 == k;
            assert(rest[i - 1] == s[i]);
        }
    }
    assert(keyed(s) =~= keyed(rest).insert(x.0, x.1));
}

/// The entries of `m` whose path and value `keep` accepts.
pub open spec fn kept<V>(m: Map<Seq<Seq<char>>, V>, keep: spec_fn((Seq<Seq<char>>, V)) -> bool) -> Map<Seq<Seq<char>>, V> {
    Map::new(|k: Seq<Seq<char>>| m.contains_key(k) && keep((k, m[k])), |k: Seq<Seq<char>>| m[k])
}

/// Filtering a list whose paths are distinct filters the map it describes.
pub proof fn lemma_keyed_filter<V>(s: Seq<(Seq<Seq<char>>, V)>, keep: spec_fn((Seq<Seq<char>>, V)) -> bool)
    requires
        distinct_keys(s),
    ensures
        distinct_keys(s.filter(keep)),
        keyed(s.filter(keep)) == kept(keyed(s), keep),
    decreases s.len(),
{
    reveal(Seq::filter);
    if s.len() == 0 {
        assert(kept(keyed(s), keep) =~= Map::empty());
    } else {
        let r = s.drop_last();
        let x = s[s.len() - 1];
        assert(s.last() == x);
        lemma_keyed_filter(r, keep);
        lemma_keyed(r);
        let f = r.filter(keep);
        lemma_keyed(f);
        if keyed(r).contains_key(x.0) {
            let i = choose|i: int| 0 <= i < r.len() && r[i].0 == x.0;
            assert(s[i].0 == s[s.len() - 1].0);
        }
        if keep(x) {
            assert(s.filter(keep) == f.push(x));
            assert forall|a: int, b: int| 0 <= a < b < f.push(x).len() implies f.push(x)[a].0 != f.push(x)[b].0 by {
                if b == f.len() {
                    assert(keyed(f).contains_key(f[a].0));
                }
            }
            assert(f.push(x).drop_last() =~= f);
            assert(keyed(f.push(x)) == keyed(f).insert(x.0, x.1));
            assert(keyed(s.filter(keep)) =~= kept(keyed(s), keep));
        } else {
            assert(s.filter(keep) == f);
            assert(keyed(s.filter(keep)) =~= kept(keyed(s), keep));
        }
    }
}

/// One buffered write, waiting for the next flush.
#[derive(Debug)]
pub enum PendingOp {
    Put(Vec<u8>),
    Delete,
}

impl View for PendingOp {
    type V = Option<Seq<u8>>;

    /// What a reader sees: the bytes set, or nothing where the key is gone.
    open spec fn view(&self) -> Option<Seq<u8>> {
        match self {
            PendingOp::Put(bytes) => Some(bytes@),
            PendingOp::Delete => None,
        }
    }
}

/// The same bytes, held separately.
pub(crate) fn bytes_copied(bytes: &Vec<u8>) -> (r: Vec<u8>)
    ensures
        r@ == bytes@,
{
    let mut r: Vec<u8> = Vec::new();
    let mut i: usize = 0;
    while i < bytes.len()
        invariant
            i <= bytes@.len(),
            r@ == bytes@.subrange(0, i as int),
        decreases bytes@.len() - i,
    {
        r.push(bytes[i]);
        i = i + 1;
        assert(r@ =~= bytes@.subrange(0, i as int));
    }
    assert(bytes@.subrange(0, bytes@.len() as int) =~= bytes@);
    r
}

/// Whether two byte strings are the same.
pub(crate) fn same_bytes(a: &Vec<u8>, b: &Vec<u8>) -> (r: bool)
    ensures
        r == (a@ == b@),
{
    if a.len() != b.len() {
        return false;
    }
    let mut i: usize = 0;
    while i < a.len()
        invariant
            i <= a@.len(),
            a@.len() == b@.len(),
            forall|j: int| 0 <= j < i ==> a@[j] == b@[j],
        decreases a@.len() - i,
    {
        if a[i] != b[i] {
            return false;
        }
        i = i + 1;
    }
    assert(a@ =~= b@);
    true
}

impl PendingOp {
    /// The value a reader should see, or `None` where the key is gone.
    pub fn value(&self) -> (r: Option<&[u8]>)
        ensures
            match r {
                Some(bytes) => self@ == Some(bytes@),
                None => self@ is None,
            },
    {
        match self {
            PendingOp::Put(bytes) => Some(bytes.as_slice()),
            PendingOp::Delete => None,
        }
    }

    /// The same write, held separately.
    pub fn copied(&self) -> (r: PendingOp)
        ensures
            r@ == self@,
    {
        match self {
            PendingOp::Put(bytes) => PendingOp::Put(bytes_copied(bytes)),
            PendingOp::Delete => PendingOp::Delete,
        }
    }

    /// Whether the two writes would leave a reader seeing the same thing.
    pub fn same_as(&self, other: &PendingOp) -> (r: bool)
        ensures
            r == (self@ == other@),
    {
        match (self, other) {
            (PendingOp::Put(a), PendingOp::Put(b)) => same_bytes(a, b),
            (PendingOp::Delete, PendingOp::Delete) => true,
            _ => false,
        }
    }
}

/// Paths and writes, as paths and what a reader sees there.
pub open spec fn op_views(v: Seq<(StorePath, PendingOp)>) -> Seq<(Seq<Seq<char>>, Option<Seq<u8>>)> {
    v.map_values(|e: (StorePath, PendingOp)| (e.0@, e.1@))
}

/// Namespaces and their markers, as paths.
pub open spec fn mark_views(v: Seq<(StorePath, bool)>) -> Seq<(Seq<Seq<char>>, bool)> {
    v.map_values(|e: (StorePath, bool)| (e.0@, e.1))
}

/// Everything written since the last flush landed: the values, and which
/// namespaces have been seeded.
///
/// The two are held apart: a marker is about a namespace and a value about a
/// path, and any level name is legal in both, so sharing one key space would
/// let a value and a marker at the same path overwrite each other. They stay
/// in one buffer so that a marker lands in the same commit as the values it
/// vouches for.
pub struct Pending {
    at: Vec<(StorePath, PendingOp)>,
    marking: Vec<(StorePath, bool)>,
}

/// What a buffer holds: a write per path, and a marker per namespace.
pub struct PendingView {
    pub values: Map<Seq<Seq<char>>, Option<Seq<u8>>>,
    pub marks: Map<Seq<Seq<char>>, bool>,
}

impl View for Pending {
    type V = PendingView;

    closed spec fn view(&self) -> PendingView {
        PendingView { values: keyed(op_views(self.at@)), marks: keyed(mark_views(self.marking@)) }
    }
}

/// The entries of `m` at or under `prefix`.
pub open spec fn under_prefix<V>(m: Map<Seq<Seq<char>>, V>, prefix: Seq<Seq<char>>) -> Map<Seq<Seq<char>>, V> {
    Map::new(|k: Seq<Seq<char>>| m.contains_key(k) && is_under(k, prefix), |k: Seq<Seq<char>>| m[k])
}

/// The entries of `m` that `gone` does not hold with the same value.
pub open spec fn without_landed<V>(m: Map<Seq<Seq<char>>, V>, gone: Map<Seq<Seq<char>>, V>) -> Map<Seq<Seq<char>>, V> {
    Map::new(
        |k: Seq<Seq<char>>| m.contains_key(k) && !(gone.contains_key(k) && gone[k] == m[k]),
        |k: Seq<Seq<char>>| m[k],
    )
}

impl Pending {
    #[verifier::type_invariant]
    spec fn well_formed(self) -> bool {
        distinct_keys(op_views(self.at@)) && distinct_keys(mark_views(self.marking@))
    }

    /// The maps a buffer holds are finite.
    pub proof fn lemma_finite(&self)
        ensures
            self@.values.dom().finite(),
            self@.marks.dom().finite(),
    {
        lemma_keyed_finite(op_views(self.at@));
        lemma_keyed_finite(mark_views(self.marking@));
    }

    /// An empty buffer.
    pub fn new() -> (r: Pending)
        ensures
            r@.values == Map::<Seq<Seq<char>>, Option<Seq<u8>>>::empty(),
            r@.marks == Map::<Seq<Seq<char>>, bool>::empty(),
    {
        let r = Pending { at: Vec::new(), marking: Vec::new() };
        assert(op_views(r.at@) =~= Seq::empty());
        assert(mark_views(r.marking@) =~= Seq::empty());
        r
    }

    /// Whether nothing is buffered, neither a value nor a marker.
    pub fn is_empty(&self) -> (r: bool)
        ensures
            r == (self@.values.dom().is_empty() && self@.marks.dom().is_empty()),
    {
        proof {
            use_type_invariant(self);
            lemma_keyed(op_views(self.at@));
            lemma_keyed(mark_views(self.marking@));
            if self.at@.len() > 0 {
                assert(self@.values.contains_key(op_views(self.at@)[0].0));
            }
            if self.marking@.len() > 0 {
                assert(self@.marks.contains_key(mark_views(self.marking@)[0].0));
            }
        }
        self.at.len() == 0 && self.marking.len() == 0
    }

    /// How much the buffer is holding, markers counted with the values: a
    /// size for a report, not an index into anything.
    pub fn len(&self) -> (r: usize)
        requires
            self@.values.dom().len() + self@.marks.dom().len() <= usize::MAX,
        ensures
            r == self@.values.dom().len() + self@.marks.dom().len(),
    {
        proof {
            use_type_invariant(self);
            lemma_keyed(op_views(self.at@));
            lemma_keyed(mark_views(self.marking@));
        }
        self.at.len() + self.marking.len()
    }

    /// Where a value is buffered for `path`, if one is.
    fn find(&self, path: &StorePath) -> (r: Option<usize>)
        ensures
            match r {
                Some(i) => i < self.at@.len() && self.at@[i as int].0@ == path@,
                None => forall|i: int| 0 <= i < self.at@.len() ==> self.at@[i].0@ != path@,
            },
    {
        let mut i: usize = 0;
        while i < self.at.len()
            invariant
                i <= self.at@.len(),
                forall|j: int| 0 <= j < i ==> self.at@[j].0@ != path@,
            decreases self.at@.len() - i,
        {
            if self.at[i].0.same_as(path) {
                return Some(i);
            }
            i = i + 1;
        }
        None
    }

    /// Where `namespace` is marked, if it is.
    fn find_mark(&self, namespace: &StorePath) -> (r: Option<usize>)
        ensures
            match r {
                Some(i) => i < self.marking@.len() && self.marking@[i as int].0@ == namespace@,
                None => forall|i: int| 0 <= i < self.marking@.len() ==> self.marking@[i].0@ != namespace@,
            },
    {
        let mut i: usize = 0;
        while i < self.marking.len()
            invariant
                i <= self.marking@.len(),
                forall|j: int| 0 <= j < i ==> self.marking@[j].0@ != namespace@,
            decreases self.marking@.len() - i,
        {
            if self.marking[i].0.same_as(namespace) {
                return Some(i);
            }
            i = i + 1;
        }
        None
    }

    /// Whether a value is buffered at `path`.
    pub fn holds(&self, path: &StorePath) -> (r: bool)
        ensures
            r == self@.values.contains_key(path@),
    {
        proof {
            use_type_invariant(self);
            lemma_keyed(op_views(self.at@));
        }
        let found = self.find(path);
        proof {
            if let Some(i) = found {
                assert(op_views(self.at@)[i as int].0 == path@);
            }
        }
        found.is_some()
    }

    /// What is buffered for `path`, which is a value and never a marker.
    pub fn get(&self, path: &StorePath) -> (r: Option<&PendingOp>)
        ensures
            match r {
                Some(op) => self@.values.contains_key(path@) && self@.values[path@] == op@,
                None => !self@.values.contains_key(path@),
            },
    {
        proof {
            use_type_invariant(self);
            lemma_keyed(op_views(self.at@));
        }
        match self.find(path) {
            Some(i) => {
                assert(op_views(self.at@)[i as int].0 == path@);
                Some(&self.at[i].1)
            },
            None => None,
        }
    }

    /// Buffers `op` at `path`, in place of whatever was buffered there.
    pub fn insert(&mut self, path: StorePath, op: PendingOp)
        ensures
            final(self)@.values == old(self)@.values.insert(path@, op@),
            final(self)@.marks == old(self)@.marks,
    {
        proof {
            use_type_invariant(&*self);
        }
        let found = self.find(&path);
        let mut at: Vec<(StorePath, PendingOp)> = Vec::new();
        std::mem::swap(&mut at, &mut self.at);
        let ghost was = op_views(at@);
        let ghost entry = (path@, op@);
        proof {
            lemma_keyed(was);
        }
        match found {
            Some(i) => {
                at.set(i, (path, op));
                proof {
                    assert(op_views(at@) =~= was.update(i as int, entry));
                    assert(was[i as int].0 == entry.0);
                    assert forall|a: int, b: int| 0 <= a < b < op_views(at@).len() implies op_views(at@)[a].0 != op_views(at@)[b].0 by {
                        assert(op_views(at@)[a].0 == was[a].0);
                        assert(op_views(at@)[b].0 == was[b].0);
                    }
                    assert(op_views(at@)[i as int].0 == entry.0);
                    lemma_keyed(op_views(at@));
                    assert forall|k: Seq<Seq<char>>| #[trigger] keyed(op_views(at@)).contains_key(k) <==> keyed(was).insert(entry.0, entry.1).contains_key(k) by {
                        if keyed(was).contains_key(k) {
                            let j = choose|j: int| 0 <= j < was.len() && was[j].0 == k;
                            assert(op_views(at@)[j].0 == k);
                        }
                        if keyed(op_views(at@)).contains_key(k) {
                            let j = choose|j: int| 0 <= j < op_views(at@).len() && op_views(at@)[j].0 == k;
                            assert(was[j].0 == k);
                        }
                    }
                    assert forall|k: Seq<Seq<char>>| #[trigger] keyed(op_views(at@)).contains_key(k) implies keyed(op_views(at@))[k] == keyed(was).insert(entry.0, entry.1)[k] by {
                        let j = choose|j: int| 0 <= j < op_views(at@).len() && op_views(at@)[j].0 == k;
                        if j != i {
                            assert(op_views(at@)[j] == was[j]);
                        }
                    }
                    assert(keyed(op_views(at@)) =~= keyed(was).insert(entry.0, entry.1));
                }
            },
            None => {
                at.push((path, op));
                proof {
                    assert(op_views(at@) =~= was.push(entry));
                    assert(op_views(at@).drop_last() =~= was);
                }
            },
        }
        self.at = at;
    }

    /// Whether `namespace` has been marked since the last flush, and how.
    pub fn marked(&self, namespace: &StorePath) -> (r: Option<bool>)
        ensures
            match r {
                Some(seeded) => self@.marks.contains_key(namespace@) && self@.marks[namespace@] == seeded,
                None => !self@.marks.contains_key(namespace@),
            },
    {
        proof {
            use_type_invariant(self);
            lemma_keyed(mark_views(self.marking@));
        }
        match self.find_mark(namespace) {
            Some(i) => {
                assert(mark_views(self.marking@)[i as int].0 == namespace@);
                Some(self.marking[i].1)
            },
            None => None,
        }
    }

    /// Marks `namespace` as seeded or not, in place of any earlier marker.
    pub fn mark(&mut self, namespace: StorePath, seeded: bool)
        ensures
            final(self)@.marks == old(self)@.marks.insert(namespace@, seeded),
            final(self)@.values == old(self)@.values,
    {
        proof {
            use_type_invariant(&*self);
        }
        let found = self.find_mark(&namespace);
        let mut marking: Vec<(StorePath, bool)> = Vec::new();
        std::mem::swap(&mut marking, &mut self.marking);
        let ghost was = mark_views(marking@);
        let ghost entry = (namespace@, seeded);
        proof {
            lemma_keyed(was);
        }
        match found {
            Some(i) => {
                marking.set(i, (namespace, seeded));
                proof {
                    assert(mark_views(marking@) =~= was.update(i as int, entry));
                    assert(was[i as int].0 == entry.0);
                    assert forall|a: int, b: int| 0 <= a < b < mark_views(marking@).len() implies mark_views(marking@)[a].0 != mark_views(marking@)[b].0 by {
                        assert(mark_views(marking@)[a].0 == was[a].0);
                        assert(mark_views(marking@)[b].0 == was[b].0);
                    }
                    assert(mark_views(marking@)[i as int].0 == entry.0);
                    lemma_keyed(mark_views(marking@));
                    assert forall|k: Seq<Seq<char>>| #[trigger] keyed(mark_views(marking@)).contains_key(k) <==> keyed(was).insert(entry.0, entry.1).contains_key(k) by {
                        if keyed(was).contains_key(k) {
                            let j = choose|j: int| 0 <= j < was.len() && was[j].0 == k;
                            assert(mark_views(marking@)[j].0 == k);
                        }
                        if keyed(mark_views(marking@)).contains_key(k) {
                            let j = choose|j: int| 0 <= j < mark_views(marking@).len() && mark_views(marking@)[j].0 == k;
                            assert(was[j].0 == k);
                        }
                    }
                    assert forall|k: Seq<Seq<char>>| #[trigger] keyed(mark_views(marking@)).contains_key(k) implies keyed(mark_views(marking@))[k] == keyed(was).insert(entry.0, entry.1)[k] by {
                        let j = choose|j: int| 0 <= j < mark_views(marking@).len() && mark_views(marking@)[j].0 == k;
                        if j != i {
                            assert(mark_views(marking@)[j] == was[j]);
                        }
                    }
                    assert(keyed(mark_views(marking@)) =~= keyed(was).insert(entry.0, entry.1));
                }
            },
            None => {
                marking.push((namespace, seeded));
                proof {
                    assert(mark_views(marking@) =~= was.push(entry));
                    assert(mark_views(marking@).drop_last() =~= was);
                }
            },
        }
        self.marking = marking;
    }

    /// Every path a value is buffered at, with what is buffered there, each
    /// once.
    pub fn values(&self) -> (r: &[(StorePath, PendingOp)])
        ensures
            distinct_keys(op_views(r@)),
            keyed(op_views(r@)) == self@.values,
    {
        proof {
            use_type_invariant(self);
        }
        self.at.as_slice()
    }

    /// Every namespace marked, with how, each once.
    pub fn markings(&self) -> (r: &[(StorePath, bool)])
        ensures
            distinct_keys(mark_views(r@)),
            keyed(mark_views(r@)) == self@.marks,
    {
        proof {
            use_type_invariant(self);
        }
        self.marking.as_slice()
    }
}

impl Pending {
    /// The same buffer, held separately.
    pub fn copied(&self) -> (r: Pending)
        ensures
            r@.values == self@.values,
            r@.marks == self@.marks,
    {
        let root = StorePath::root();
        let r = pending_prefix(self, &root);
        assert(under_prefix(self@.values, root@) =~= self@.values);
        assert(under_prefix(self@.marks, root@) =~= self@.marks);
        r
    }

    /// Everything written and not yet saved, as the caller named it: every
    /// path a value is buffered at, then every namespace marked, each list
    /// without repeats. A marker names the namespace it is about, which is a
    /// path the caller wrote to as surely as a value's is.
    pub fn unsaved(&self) -> (r: Vec<StorePath>)
        ensures
            r@.len() == self@.values.dom().len() + self@.marks.dom().len(),
            forall|i: int| 0 <= i < self@.values.dom().len() ==> self@.values.contains_key(#[trigger] r@[i]@),
            forall|i: int| self@.values.dom().len() <= i < r@.len() ==> self@.marks.contains_key(#[trigger] r@[i]@),
            forall|i: int, j: int| 0 <= i < j < self@.values.dom().len() ==> r@[i]@ != r@[j]@,
            forall|i: int, j: int| self@.values.dom().len() <= i < j < r@.len() ==> r@[i]@ != r@[j]@,
    {
        proof {
            use_type_invariant(self);
            lemma_keyed(op_views(self.at@));
            lemma_keyed(mark_views(self.marking@));
        }
        let ghost vs = op_views(self.at@);
        let ghost ms = mark_views(self.marking@);
        let mut r: Vec<StorePath> = Vec::new();
        let mut i: usize = 0;
        while i < self.at.len()
            invariant
                i <= self.at@.len(),
                vs == op_views(self.at@),
                r@.len() == i,
                forall|j: int| 0 <= j < i ==> #[trigger] r@[j]@ == vs[j].0,
            decreases self.at@.len() - i,
        {
            r.push(self.at[i].0.copied());
            i = i + 1;
        }
        let n = self.at.len();
        let mut k: usize = 0;
        while k < self.marking.len()
            invariant
                k <= self.marking@.len(),
                n == vs.len(),
                ms == mark_views(self.marking@),
                r@.len() == n + k,
                forall|j: int| 0 <= j < n ==> #[trigger] r@[j]@ == vs[j].0,
                forall|j: int| 0 <= j < k ==> #[trigger] r@[n + j]@ == ms[j].0,
            decreases self.marking@.len() - k,
        {
            r.push(self.marking[k].0.copied());
            k = k + 1;
        }
        proof {
            assert forall|i: int| 0 <= i < vs.len() implies self@.values.contains_key(#[trigger] r@[i]@) by {
                assert(r@[i]@ == vs[i].0);
            }
            assert forall|i: int| vs.len() <= i < r@.len() implies self@.marks.contains_key(#[trigger] r@[i]@) by {
                assert(r@[n + (i - n)]@ == ms[i - n].0);
            }
            assert forall|i: int, j: int| vs.len() <= i < j < r@.len() implies r@[i]@ != r@[j]@ by {
                assert(r@[n + (i - n)]@ == ms[i - n].0);
                assert(r@[n + (j - n)]@ == ms[j - n].0);
            }
        }
        r
    }
}

/// Whether an entry lies at or under `prefix`.
pub open spec fn under<V>(prefix: Seq<Seq<char>>) -> spec_fn((Seq<Seq<char>>, V)) -> bool {
    |e: (Seq<Seq<char>>, V)| is_under(e.0, prefix)
}

/// Whether an entry is not what `landed` holds at its path.
pub open spec fn not_landed<V>(landed: Map<Seq<Seq<char>>, V>) -> spec_fn((Seq<Seq<char>>, V)) -> bool {
    |e: (Seq<Seq<char>>, V)| !(landed.contains_key(e.0) && landed[e.0] == e.1)
}

/// The values of `src` at or under `prefix`, in the order they stand.
fn values_under(src: &Vec<(StorePath, PendingOp)>, prefix: &StorePath) -> (r: Vec<(StorePath, PendingOp)>)
    ensures
        op_views(r@) == op_views(src@).filter(under(prefix@)),
{
    let ghost all = op_views(src@);
    let mut r: Vec<(StorePath, PendingOp)> = Vec::new();
    let mut i: usize = 0;
    proof {
        reveal(Seq::filter);
        assert(all.take(0) =~= Seq::empty());
        assert(op_views(r@) =~= Seq::empty());
    }
    while i < src.len()
        invariant
            i <= src@.len(),
            all == op_views(src@),
            op_views(r@) == all.take(i as int).filter(under(prefix@)),
        decreases src@.len() - i,
    {
        let ghost before = op_views(r@);
        if src[i].0.starts_with(prefix) {
            r.push((src[i].0.copied(), src[i].1.copied()));
            assert(op_views(r@) =~= before.push(all[i as int]));
        }
        proof {
            reveal(Seq::filter);
            assert(all.take(i + 1).drop_last() =~= all.take(i as int));
            assert(all.take(i + 1).last() == all[i as int]);
        }
        i = i + 1;
    }
    assert(all.take(src@.len() as int) =~= all);
    r
}

/// The markers of `src` at or under `prefix`, in the order they stand.
fn marks_under(src: &Vec<(StorePath, bool)>, prefix: &StorePath) -> (r: Vec<(StorePath, bool)>)
    ensures
        mark_views(r@) == mark_views(src@).filter(under(prefix@)),
{
    let ghost all = mark_views(src@);
    let mut r: Vec<(StorePath, bool)> = Vec::new();
    let mut i: usize = 0;
    proof {
        reveal(Seq::filter);
        assert(all.take(0) =~= Seq::empty());
        assert(mark_views(r@) =~= Seq::empty());
    }
    while i < src.len()
        invariant
            i <= src@.len(),
            all == mark_views(src@),
            mark_views(r@) == all.take(i as int).filter(under(prefix@)),
        decreases src@.len() - i,
    {
        let ghost before = mark_views(r@);
        if src[i].0.starts_with(prefix) {
            r.push((src[i].0.copied(), src[i].1));
            assert(mark_views(r@) =~= before.push(all[i as int]));
        }
        proof {
            reveal(Seq::filter);
            assert(all.take(i + 1).drop_last() =~= all.take(i as int));
            assert(all.take(i + 1).last() == all[i as int]);
        }
        i = i + 1;
    }
    assert(all.take(src@.len() as int) =~= all);
    r
}

/// The values of `src` that `landed` does not hold as they are.
fn values_not_landed(src: &Vec<(StorePath, PendingOp)>, landed: &Pending) -> (r: Vec<(StorePath, PendingOp)>)
    ensures
        op_views(r@) == op_views(src@).filter(not_landed(landed@.values)),
{
    let ghost all = op_views(src@);
    let mut r: Vec<(StorePath, PendingOp)> = Vec::new();
    let mut i: usize = 0;
    proof {
        reveal(Seq::filter);
        assert(all.take(0) =~= Seq::empty());
        assert(op_views(r@) =~= Seq::empty());
    }
    while i < src.len()
        invariant
            i <= src@.len(),
            all == op_views(src@),
            op_views(r@) == all.take(i as int).filter(not_landed(landed@.values)),
        decreases src@.len() - i,
    {
        let ghost before = op_views(r@);
        let stays = match landed.get(&src[i].0) {
            Some(op) => !op.same_as(&src[i].1),
            None => true,
        };
        if stays {
            r.push((src[i].0.copied(), src[i].1.copied()));
            assert(op_views(r@) =~= before.push(all[i as int]));
        }
        proof {
            reveal(Seq::filter);
            assert(all.take(i + 1).drop_last() =~= all.take(i as int));
            assert(all.take(i + 1).last() == all[i as int]);
        }
        i = i + 1;
    }
    assert(all.take(src@.len() as int) =~= all);
    r
}

/// The markers of `src` that `landed` does not hold as they are.
fn marks_not_landed(src: &Vec<(StorePath, bool)>, landed: &Pending) -> (r: Vec<(StorePath, bool)>)
    ensures
        mark_views(r@) == mark_views(src@).filter(not_landed(landed@.marks)),
{
    let ghost all = mark_views(src@);
    let mut r: Vec<(StorePath, bool)> = Vec::new();
    let mut i: usize = 0;
    proof {
        reveal(Seq::filter);
        assert(all.take(0) =~= Seq::empty());
        assert(mark_views(r@) =~= Seq::empty());
    }
    while i < src.len()
        invariant
            i <= src@.len(),
            all == mark_views(src@),
            mark_views(r@) == all.take(i as int).filter(not_landed(landed@.marks)),
        decreases src@.len() - i,
    {
        let ghost before = mark_views(r@);
        let stays = match landed.marked(&src[i].0) {
            Some(seeded) => seeded != src[i].1,
            None => true,
        };
        if stays {
            r.push((src[i].0.copied(), src[i].1));
            assert(mark_views(r@) =~= before.push(all[i as int]));
        }
        proof {
            reveal(Seq::filter);
            assert(all.take(i + 1).drop_last() =~= all.take(i as int));
            assert(all.take(i + 1).last() == all[i as int]);
        }
        i = i + 1;
    }
    assert(all.take(src@.len() as int) =~= all);
    r
}

/// Bytes that may be there, as a value.
pub open spec fn maybe_bytes(o: Option<Vec<u8>>) -> Option<Seq<u8>> {
    match o {
        Some(b) => Some(b@),
        None => None,
    }
}

/// What a read at `path` sees: the buffer's answer where it holds one, what
/// the engine committed otherwise.
pub open spec fn seen(values: Map<Seq<Seq<char>>, Option<Seq<u8>>>, path: Seq<Seq<char>>, committed: Option<Seq<u8>>) -> Option<Seq<u8>> {
    if values.contains_key(path) {
        values[path]
    } else {
        committed
    }
}

/// Buffers a write of `bytes` at `path`, unless it is what a read there
/// already sees; `committed` is what the engine holds at `path`. Gives back
/// what a subscriber is told was there and what is there now, or nothing
/// where the write changes nothing.
pub fn buffer_write(pending: &mut Pending, path: &StorePath, bytes: Vec<u8>, committed: Option<Vec<u8>>) -> (r: Option<(Option<Vec<u8>>, Vec<u8>)>)
    ensures
        seen(old(pending)@.values, path@, maybe_bytes(committed)) == Some(bytes@) ==> r is None && final(pending)@ == old(pending)@,
        seen(old(pending)@.values, path@, maybe_bytes(committed)) != Some(bytes@) ==> {
            &&& r matches Some((was, now))
            &&& maybe_bytes(was) == seen(old(pending)@.values, path@, maybe_bytes(committed))
            &&& now@ == bytes@
            &&& final(pending)@.values == old(pending)@.values.insert(path@, Some(bytes@))
            &&& final(pending)@.marks == old(pending)@.marks
        },
{
    let was: Option<Vec<u8>> = match pending.get(path) {
        Some(PendingOp::Put(held)) => Some(bytes_copied(held)),
        Some(PendingOp::Delete) => None,
        None => committed,
    };
    let unchanged = match &was {
        Some(held) => same_bytes(held, &bytes),
        None => false,
    };
    if unchanged {
        return None;
    }
    let now = bytes_copied(&bytes);
    pending.insert(path.copied(), PendingOp::Put(bytes));
    Some((was, now))
}

/// Everything buffered under `prefix`, left in place.
///
/// The buffer is only cleared once the write has actually landed, by
/// [`clear_committed`]: taking entries out first would lose them to any
/// error below, from memory and disk both.
pub fn pending_prefix(pending: &Pending, prefix: &StorePath) -> (r: Pending)
    ensures
        r@.values == under_prefix(pending@.values, prefix@),
        r@.marks == under_prefix(pending@.marks, prefix@),
{
    proof {
        use_type_invariant(pending);
    }
    if pending.is_empty() {
        let r = Pending::new();
        assert(under_prefix(pending@.values, prefix@) =~= Map::empty());
        assert(under_prefix(pending@.marks, prefix@) =~= Map::empty());
        return r;
    }
    let at = values_under(&pending.at, prefix);
    let marking = marks_under(&pending.marking, prefix);
    proof {
        lemma_keyed_filter(op_views(pending.at@), under(prefix@));
        lemma_keyed_filter(mark_views(pending.marking@), under(prefix@));
        assert(kept(pending@.values, under(prefix@)) =~= under_prefix(pending@.values, prefix@));
        assert(kept(pending@.marks, under(prefix@)) =~= under_prefix(pending@.marks, prefix@));
    }
    Pending { at, marking }
}

/// Drops from the buffer exactly what was committed.
///
/// A path whose buffered value has changed since is a write that landed while
/// the commit was in flight; it is not on disk, so it stays for the next one.
pub fn clear_committed(pending: &mut Pending, committed: &Pending)
    ensures
        final(pending)@.values == without_landed(old(pending)@.values, committed@.values),
        final(pending)@.marks == without_landed(old(pending)@.marks, committed@.marks),
{
    proof {
        use_type_invariant(&*pending);
    }
    let at = values_not_landed(&pending.at, committed);
    let marking = marks_not_landed(&pending.marking, committed);
    proof {
        lemma_keyed_filter(op_views(pending.at@), not_landed(committed@.values));
        lemma_keyed_filter(mark_views(pending.marking@), not_landed(committed@.marks));
        assert(kept(old(pending)@.values, not_landed(committed@.values)) =~= without_landed(old(pending)@.values, committed@.values));
        assert(kept(old(pending)@.marks, not_landed(committed@.marks)) =~= without_landed(old(pending)@.marks, committed@.marks));
    }
    *pending = Pending { at, marking };
}

/// Where a row of kind `kind` about `path` sits among the store's own
/// bookkeeping: the kind as a level of its own, first, then the path.
pub fn bookkeeping_at(kind: &str, path: &StorePath) -> (r: StorePath)
    ensures
        r@ == seq![kind@] + path@,
{
    StorePath::segment(kind).join(path)
}

/// Where a namespace's initialization marker is kept.
pub fn init_at(namespace: &StorePath) -> (r: StorePath)
    ensures
        r@ == seq!["init"@] + namespace@,
{
    bookkeeping_at("init", namespace)
}

/// Two bookkeeping rows meet only where the kind and the rest of the path are
/// both the same, so no path a caller writes can reach another kind's row.
pub proof fn kinds_keep_their_rows_apart(
    kind_a: Seq<char>,
    path_a: Seq<Seq<char>>,
    kind_b: Seq<char>,
    path_b: Seq<Seq<char>>,
)
    ensures
        seq![kind_a] + path_a == seq![kind_b] + path_b <==> (kind_a == kind_b && path_a == path_b),
{
    if seq![kind_a] + path_a == seq![kind_b] + path_b {
        assert((seq![kind_a] + path_a)[0] == (seq![kind_b] + path_b)[0]);
        assert((seq![kind_a] + path_a).drop_first() =~= path_a);
        assert((seq![kind_b] + path_b).drop_first() =~= path_b);
    }
}

} // verus!
