//! Where a value sits in a store: a list of levels, each a name.
//!
//! A name may hold the separator a document spells paths with; it is still one
//! level. So a path is never a string here, always its levels.

use crate::text::{
    lemma_text_less_asymmetric, lemma_text_less_total,
    lemma_text_less_transitive, text_less, text_precedes,
};
use vstd::prelude::*;

verus! {

/// A path through the store, level by level. The root has no levels.
#[derive(Debug, Clone, PartialEq, Eq, Hash)]
pub struct StorePath {
    pub segments: Vec<String>,
}

impl View for StorePath {
    type V = Seq<Seq<char>>;

    open spec fn view(&self) -> Seq<Seq<char>> {
        self.segments@.map_values(|s: String| s@)
    }
}

/// Whether `prefix` is the first levels of `path`.
pub open spec fn is_under(path: Seq<Seq<char>>, prefix: Seq<Seq<char>>) -> bool {
    prefix.len() <= path.len() && path.subrange(0, prefix.len() as int) =~= prefix
}

/// Whether `a` sorts before `b`: level by level, each level as text, a path
/// before every longer path it begins.
pub open spec fn path_less(a: Seq<Seq<char>>, b: Seq<Seq<char>>) -> bool
    decreases a.len(),
{
    if a.len() == 0 {
        b.len() > 0
    } else if b.len() == 0 {
        false
    } else if a[0] != b[0] {
        text_less(a[0], b[0])
    } else {
        path_less(a.drop_first(), b.drop_first())
    }
}

pub proof fn lemma_path_less_irreflexive(a: Seq<Seq<char>>)
    ensures
        !path_less(a, a),
    decreases a.len(),
{
    if a.len() > 0 {
        lemma_path_less_irreflexive(a.drop_first());
    }
}

pub proof fn lemma_path_less_total(a: Seq<Seq<char>>, b: Seq<Seq<char>>)
    ensures
        a == b || path_less(a, b) || path_less(b, a),
    decreases a.len(),
{
    if a.len() > 0 && b.len() > 0 && a[0] == b[0] {
        lemma_path_less_total(a.drop_first(), b.drop_first());
        if a.drop_first() == b.drop_first() {
            assert(a =~= seq![a[0]] + a.drop_first());
            assert(b =~= seq![b[0]] + b.drop_first());
        }
    } else if a.len() > 0 && b.len() > 0 {
        lemma_text_less_total(a[0], b[0]);
    } else if a.len() == 0 && b.len() == 0 {
        assert(a =~= b);
    }
}

pub proof fn lemma_path_less_asymmetric(a: Seq<Seq<char>>, b: Seq<Seq<char>>)
    ensures
        path_less(a, b) ==> !path_less(b, a),
    decreases a.len(),
{
    if a.len() > 0 && b.len() > 0 {
        if a[0] == b[0] {
            lemma_path_less_asymmetric(a.drop_first(), b.drop_first());
        } else {
            lemma_text_less_asymmetric(a[0], b[0]);
        }
    }
}

pub proof fn lemma_path_less_transitive(a: Seq<Seq<char>>, b: Seq<Seq<char>>, c: Seq<Seq<char>>)
    requires
        path_less(a, b),
        path_less(b, c),
    ensures
        path_less(a, c),
    decreases a.len(),
{
    if a.len() > 0 && b.len() > 0 && c.len() > 0 {
        if a[0] == b[0] && b[0] == c[0] {
            lemma_path_less_transitive(a.drop_first(), b.drop_first(), c.drop_first());
        } else if a[0] == b[0] {
            assert(text_less(a[0], c[0]));
        } else if b[0] == c[0] {
            assert(text_less(a[0], c[0]));
        } else {
            lemma_text_less_transitive(a[0], b[0], c[0]);
            if a[0] == c[0] {
                lemma_text_less_asymmetric(a[0], b[0]);
            }
        }
    }
}

impl StorePath {
    /// The path with no levels.
    pub fn root() -> (r: StorePath)
        ensures
            r@ == Seq::<Seq<char>>::empty(),
    {
        let r = StorePath { segments: Vec::new() };
        assert(r@ =~= Seq::<Seq<char>>::empty());
        r
    }

    /// A path of one level.
    pub fn segment(name: &str) -> (r: StorePath)
        ensures
            r@ == seq![name@],
    {
        let mut segments = Vec::new();
        segments.push(name.to_string());
        let r = StorePath { segments };
        assert(r@ =~= seq![name@]);
        r
    }

    /// A path of the levels given, in order.
    pub fn from_segments(names: &[&str]) -> (r: StorePath)
        ensures
            r@ == names@.map_values(|s: &str| s@),
    {
        let mut segments: Vec<String> = Vec::new();
        let mut i: usize = 0;
        while i < names.len()
            invariant
                i <= names@.len(),
                segments@.len() == i,
                forall|j: int| 0 <= j < i ==> #[trigger] segments@[j]@ == names@[j]@,
            decreases names@.len() - i,
        {
            segments.push(names[i].to_string());
            i = i + 1;
        }
        let r = StorePath { segments };
        assert(r@ =~= names@.map_values(|s: &str| s@));
        r
    }

    /// How many levels the path has.
    pub fn len(&self) -> (n: usize)
        ensures
            n == self@.len(),
    {
        self.segments.len()
    }

    /// The level at `i`.
    pub fn level(&self, i: usize) -> (s: &String)
        requires
            i < self@.len(),
        ensures
            s@ == self@[i as int],
    {
        &self.segments[i]
    }

    /// The same path, held separately.
    pub fn copied(&self) -> (r: StorePath)
        ensures
            r@ == self@,
    {
        let mut segments: Vec<String> = Vec::new();
        let mut i: usize = 0;
        while i < self.segments.len()
            invariant
                i <= self.segments@.len(),
                segments@.len() == i,
                forall|j: int| 0 <= j < i ==> #[trigger] segments@[j]@ == self.segments@[j]@,
            decreases self.segments@.len() - i,
        {
            segments.push(self.segments[i].clone());
            i = i + 1;
        }
        let r = StorePath { segments };
        assert(r@ =~= self@);
        r
    }

    /// `other`'s levels under this path's.
    pub fn join(&self, other: &StorePath) -> (r: StorePath)
        ensures
            r@ == self@ + other@,
    {
        let mut segments: Vec<String> = Vec::new();
        let mut i: usize = 0;
        while i < self.segments.len()
            invariant
                i <= self.segments@.len(),
                segments@.len() == i,
                forall|j: int| 0 <= j < i ==> #[trigger] segments@[j]@ == self.segments@[j]@,
            decreases self.segments@.len() - i,
        {
            segments.push(self.segments[i].clone());
            i = i + 1;
        }
        let mut k: usize = 0;
        while k < other.segments.len()
            invariant
                k <= other.segments@.len(),
                segments@.len() == self.segments@.len() + k,
                forall|j: int| 0 <= j < self.segments@.len() ==> #[trigger] segments@[j]@ == self.segments@[j]@,
                forall|j: int| 0 <= j < k ==> #[trigger] segments@[self.segments@.len() + j]@ == other.segments@[j]@,
            decreases other.segments@.len() - k,
        {
            segments.push(other.segments[k].clone());
            k = k + 1;
        }
        let r = StorePath { segments };
        assert forall|j: int| 0 <= j < r@.len() implies r@[j] == (self@ + other@)[j] by {
            if j >= self@.len() {
                let d = j - self@.len();
                assert(segments@[self.segments@.len() + d]@ == other.segments@[d]@);
            }
        }
        assert(r@ =~= self@ + other@);
        r
    }

    /// Whether the two paths have the same levels.
    pub fn same_as(&self, other: &StorePath) -> (b: bool)
        ensures
            b == (self@ == other@),
    {
        if self.segments.len() != other.segments.len() {
            return false;
        }
        let mut i: usize = 0;
        while i < self.segments.len()
            invariant
                i <= self@.len(),
                self@.len() == other@.len(),
                forall|j: int| 0 <= j < i ==> self@[j] == other@[j],
            decreases self@.len() - i,
        {
            if self.segments[i] != other.segments[i] {
                assert(self@[i as int] != other@[i as int]);
                return false;
            }
            i = i + 1;
        }
        assert(self@ =~= other@);
        true
    }

    /// Whether `prefix` is the first levels of this path.
    pub fn starts_with(&self, prefix: &StorePath) -> (b: bool)
        ensures
            b == is_under(self@, prefix@),
    {
        if prefix.segments.len() > self.segments.len() {
            return false;
        }
        let mut i: usize = 0;
        while i < prefix.segments.len()
            invariant
                i <= prefix@.len(),
                prefix@.len() <= self@.len(),
                forall|j: int| 0 <= j < i ==> self@[j] == prefix@[j],
            decreases prefix@.len() - i,
        {
            if self.segments[i] != prefix.segments[i] {
                assert(self@.subrange(0, prefix@.len() as int)[i as int] != prefix@[i as int]);
                return false;
            }
            i = i + 1;
        }
        assert(self@.subrange(0, prefix@.len() as int) =~= prefix@);
        true
    }

    /// Whether either path lies under the other.
    pub fn overlaps(&self, other: &StorePath) -> (b: bool)
        ensures
            b == (is_under(self@, other@) || is_under(other@, self@)),
    {
        self.starts_with(other) || other.starts_with(self)
    }

    /// Whether this path sorts before `other`.
    pub fn precedes(&self, other: &StorePath) -> (b: bool)
        ensures
            b == path_less(self@, other@),
    {
        let la = self.segments.len();
        let lb = other.segments.len();
        let mut i: usize = 0;
        assert(self@.skip(0) =~= self@);
        assert(other@.skip(0) =~= other@);
        while i < la && i < lb
            invariant
                la == self@.len(),
                lb == other@.len(),
                i <= la,
                i <= lb,
                path_less(self@, other@) == path_less(self@.skip(i as int), other@.skip(i as int)),
            decreases la - i,
        {
            assert(self@.skip(i as int)[0] == self.segments@[i as int]@);
            assert(other@.skip(i as int)[0] == other.segments@[i as int]@);
            if self.segments[i] != other.segments[i] {
                return text_precedes(self.segments[i].as_str(), other.segments[i].as_str());
            }
            assert(self@.skip(i as int).drop_first() =~= self@.skip(i + 1));
            assert(other@.skip(i as int).drop_first() =~= other@.skip(i + 1));
            i = i + 1;
        }
        assert(self@.skip(i as int).len() == la - i);
        assert(other@.skip(i as int).len() == lb - i);
        i == la && i < lb
    }

    /// The first `n` levels of this path.
    pub fn prefix(&self, n: usize) -> (r: StorePath)
        requires
            n <= self@.len(),
        ensures
            r@ == self@.subrange(0, n as int),
    {
        let mut segments: Vec<String> = Vec::new();
        let mut i: usize = 0;
        while i < n
            invariant
                i <= n,
                n <= self.segments@.len(),
                segments@.len() == i,
                forall|j: int| 0 <= j < i ==> #[trigger] segments@[j]@ == self.segments@[j]@,
            decreases n - i,
        {
            segments.push(self.segments[i].clone());
            i = i + 1;
        }
        let r = StorePath { segments };
        assert(r@ =~= self@.subrange(0, n as int));
        r
    }

    /// The path one level up, or `None` at the root.
    pub fn parent(&self) -> (r: Option<StorePath>)
        ensures
            match r {
                Some(p) => self@.len() > 0 && p@ == self@.drop_last(),
                None => self@.len() == 0,
            },
    {
        if self.segments.len() == 0 {
            None
        } else {
            let p = self.prefix(self.segments.len() - 1);
            assert(p@ =~= self@.drop_last());
            Some(p)
        }
    }

    /// Whether this is the root.
    pub fn is_root(&self) -> (b: bool)
        ensures
            b == (self@.len() == 0),
    {
        self.segments.len() == 0
    }
}

} // verus!
