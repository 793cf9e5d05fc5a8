//! What a store says about how its bytes were written, and what a build does
//! with a fact it does not know.
//!
//! A `codec.*`, `path.*` or `layout` fact this build has no name for, or a
//! name it knows at a value it does not write, refuses the open and says which
//! fact stopped it. Anything else is carried through untouched, so an older
//! build writing a store a newer one made does not drop what it could not read.

use crate::builder::Backend;
use crate::text::{
    lemma_text_less_irreflexive, lemma_text_less_total, lemma_text_less_transitive, text_less,
    text_precedes,
};
use vstd::prelude::*;

verus! {

/// The facts, name and value, in name order.
pub type FactsView = Seq<(Seq<char>, Seq<char>)>;

/// Every name sorts before the names after it.
pub open spec fn sorted_by_name(s: FactsView) -> bool {
    forall|i: int, j: int| 0 <= i < j < s.len() ==> text_less(#[trigger] s[i].0, #[trigger] s[j].0)
}

/// The facts as a map from name to value.
pub open spec fn fact_map(s: FactsView) -> Map<Seq<char>, Seq<char>>
    decreases s.len(),
{
    if s.len() == 0 {
        Map::empty()
    } else {
        fact_map(s.drop_last()).insert(s[s.len() - 1].0, s[s.len() - 1].1)
    }
}

/// The facts held, as text.
pub open spec fn pair_views(v: Seq<(String, String)>) -> FactsView {
    v.map_values(|p: (String, String)| (p.0@, p.1@))
}

/// What one store says about how it was written.
///
/// Its presence is the marker: a store without one predates facts.
#[derive(Debug)]
pub struct StorageFactSet {
    facts: Vec<(String, String)>,
}

impl View for StorageFactSet {
    type V = FactsView;

    closed spec fn view(&self) -> FactsView {
        pair_views(self.facts@)
    }
}

impl Clone for StorageFactSet {
    /// The same facts, held separately.
    fn clone(&self) -> (r: Self)
        ensures
            r@ == self@,
    {
        proof {
            use_type_invariant(self);
        }
        let mut facts: Vec<(String, String)> = Vec::new();
        let mut i: usize = 0;
        while i < self.facts.len()
            invariant
                i <= self.facts@.len(),
                pair_views(facts@) == pair_views(self.facts@).take(i as int),
            decreases self.facts@.len() - i,
        {
            let name = self.facts[i].0.clone();
            let value = self.facts[i].1.clone();
            let ghost before = facts@;
            facts.push((name, value));
            proof {
                assert(facts@ == before.push((name, value)));
                assert(pair_views(facts@) =~= pair_views(before).push((name@, value@)));
                assert(pair_views(self.facts@)[i as int] == (self.facts@[i as int].0@, self.facts@[i as int].1@));
                assert(pair_views(facts@) =~= pair_views(self.facts@).take(i + 1));
            }
            i = i + 1;
        }
        assert(pair_views(self.facts@).take(self.facts@.len() as int) =~= pair_views(self.facts@));
        StorageFactSet { facts }
    }
}

impl StorageFactSet {
    #[verifier::type_invariant]
    closed spec fn names_in_order(self) -> bool {
        sorted_by_name(self@)
    }
}

pub proof fn lemma_fact_map(s: FactsView)
    requires
        sorted_by_name(s),
    ensures
        forall|n: Seq<char>| #[trigger] fact_map(s).contains_key(n) <==> exists|i: int| 0 <= i < s.len() && s[i].0 == n,
        forall|i: int| 0 <= i < s.len() ==> #[trigger] fact_map(s)[s[i].0] == s[i].1,
    decreases s.len(),
{
    if s.len() > 0 {
        let r = s.drop_last();
        assert(sorted_by_name(r));
        lemma_fact_map(r);
        let last = s[s.len() - 1];
        assert forall|n: Seq<char>| #[trigger] fact_map(s).contains_key(n) <==> exists|i: int| 0 <= i < s.len() && s[i].0 == n by {
            if fact_map(r).contains_key(n) {
                let i = choose|i: int| 0 <= i < r.len() && r[i].0 == n;
                assert(s[i].0 == n);
            }
            if exists|i: int| 0 <= i < s.len() && s[i].0 == n {
                let i = choose|i: int| 0 <= i < s.len() && s[i].0 == n;
                if i < s.len() - 1 {
                    assert(r[i].0 == n);
                }
            }
        }
        assert forall|i: int| 0 <= i < s.len() implies #[trigger] fact_map(s)[s[i].0] == s[i].1 by {
            if i < s.len() - 1 {
                assert(text_less(s[i].0, last.0));
                lemma_text_less_irreflexive(last.0);
                assert(r[i] == s[i]);
            }
        }
    }
}

/// The value recorded under `name`, if one is.
pub open spec fn fact_of(s: FactsView, name: Seq<char>) -> Option<Seq<char>> {
    if fact_map(s).contains_key(name) {
        Some(fact_map(s)[name])
    } else {
        None
    }
}

/// The first level of a fact's name: what comes before its first dot.
pub open spec fn head_of(name: Seq<char>) -> Seq<char> {
    let d = first_dot(name, 0);
    if d < 0 {name } else {name.subrange(0, d) }
}

pub open spec fn first_dot(name: Seq<char>, k: int) -> int
    decreases name.len() - k,
{
    if k < 0 || k >= name.len() {
        -1
    } else if name[k] == '.' {
        k
    } else {
        first_dot(name, k + 1)
    }
}

/// A fact in a namespace where an unrecognised name or value refuses the
/// open.
pub open spec fn deciding(name: Seq<char>) -> bool {
    let h = head_of(name);
    h == "codec"@ || h == "path"@ || h == "layout"@
}

/// Why a build will not open a store whose facts it has read.
#[derive(Debug, PartialEq, Eq)]
pub enum FactRefusal {
    /// The store records a deciding fact this build has no name for.
    UnknownFact {name: String, value: String },
    /// The store records a deciding fact this build writes at another value.
    UnknownValue {name: String, theirs: String, ours: String },
    /// The store records some facts and not this deciding one.
    NotRecorded {name: String, ours: String },
}

pub enum RefusalView {
    UnknownFact {name: Seq<char>, value: Seq<char> },
    UnknownValue {name: Seq<char>, theirs: Seq<char>, ours: Seq<char> },
    NotRecorded {name: Seq<char>, ours: Seq<char> },
}

impl View for FactRefusal {
    type V = RefusalView;

    open spec fn view(&self) -> RefusalView {
        match self {
            FactRefusal::UnknownFact {name, value } => RefusalView::UnknownFact {name: name@, value: value@ },
            FactRefusal::UnknownValue {name, theirs, ours } => RefusalView::UnknownValue {
                name: name@,
                theirs: theirs@,
                ours: ours@,
            },
            FactRefusal::NotRecorded {name, ours } => RefusalView::NotRecorded {name: name@, ours: ours@ },
        }
    }
}

/// The first deciding fact the store records that `ours` does not state, or
/// states at another value, scanning from `k`.
pub open spec fn first_unknown(theirs: FactsView, ours: FactsView, k: int) -> Option<RefusalView>
    decreases theirs.len() - k,
{
    if k < 0 || k >= theirs.len() {
        None
    } else if deciding(theirs[k].0) && fact_of(ours, theirs[k].0) is None {
        Some(RefusalView::UnknownFact {name: theirs[k].0, value: theirs[k].1 })
    } else if deciding(theirs[k].0) && fact_of(ours, theirs[k].0) != Some(theirs[k].1) {
        Some(RefusalView::UnknownValue {
            name: theirs[k].0,
            theirs: theirs[k].1,
            ours: fact_of(ours, theirs[k].0)->0,
        })
    } else {
        first_unknown(theirs, ours, k + 1)
    }
}

/// The first deciding fact `ours` states that the store does not record,
/// scanning from `k`.
pub open spec fn first_unrecorded(theirs: FactsView, ours: FactsView, k: int) -> Option<RefusalView>
    decreases ours.len() - k,
{
    if k < 0 || k >= ours.len() {
        None
    } else if deciding(ours[k].0) && fact_of(theirs, ours[k].0) is None {
        Some(RefusalView::NotRecorded {name: ours[k].0, ours: ours[k].1 })
    } else {
        first_unrecorded(theirs, ours, k + 1)
    }
}

/// Why a build writing `ours` may not open a store recording `theirs`, or
/// `None` where it may.
pub open spec fn refusal(theirs: FactsView, ours: FactsView) -> Option<RefusalView> {
    if theirs.len() == 0 {
        None
    } else if first_unknown(theirs, ours, 0) is Some {
        first_unknown(theirs, ours, 0)
    } else {
        first_unrecorded(theirs, ours, 0)
    }
}

/// The two sets agree on every deciding fact either of them states.
pub open spec fn agree(theirs: FactsView, ours: FactsView) -> bool {
    &&& forall|n: Seq<char>| #[trigger] deciding(n) && fact_of(theirs, n) is Some ==> fact_of(ours, n) == fact_of(theirs, n)
    &&& forall|n: Seq<char>| #[trigger] deciding(n) && fact_of(ours, n) is Some ==> fact_of(theirs, n) is Some
}

/// What this build writes for `engine`, name by name.
pub open spec fn facts_of(engine: Backend) -> Map<Seq<char>, Seq<char>> {
    let common = Map::<Seq<char>, Seq<char>>::empty()
        .insert("path.sep"@, "."@)
        .insert("path.escape"@, "\\"@)
        .insert("path.key"@, key_of(engine))
        .insert("layout"@, layout_of(engine));
    if engine == Backend::Redb {
        common.insert("codec"@, "msgpack"@).insert("codec.struct"@, "map"@).insert("codec.bytes"@, "bin"@)
    } else {
        common.insert("codec"@, codec_of(engine))
    }
}

pub open spec fn codec_of(engine: Backend) -> Seq<char> {
    match engine {
        Backend::Redb => "msgpack"@,
        Backend::Sqlite => "sonic-json"@,
        Backend::Json => "json"@,
        Backend::Toml => "toml"@,
        Backend::Ron => "ron"@,
    }
}

pub open spec fn key_of(engine: Backend) -> Seq<char> {
    match engine {
        Backend::Redb | Backend::Sqlite => "levels"@,
        _ => "joined"@,
    }
}

pub open spec fn layout_of(engine: Backend) -> Seq<char> {
    match engine {
        Backend::Redb | Backend::Sqlite => "flat"@,
        _ => "nested"@,
    }
}

fn codec_name(engine: Backend) -> (r: &'static str)
    ensures
        r@ == codec_of(engine),
{
    match engine {
        Backend::Redb => "msgpack",
        Backend::Sqlite => "sonic-json",
        Backend::Json => "json",
        Backend::Toml => "toml",
        Backend::Ron => "ron",
    }
}

fn key_name(engine: Backend) -> (r: &'static str)
    ensures
        r@ == key_of(engine),
{
    match engine {
        Backend::Redb | Backend::Sqlite => "levels",
        _ => "joined",
    }
}

fn layout_name(engine: Backend) -> (r: &'static str)
    ensures
        r@ == layout_of(engine),
{
    match engine {
        Backend::Redb | Backend::Sqlite => "flat",
        _ => "nested",
    }
}

/// Whether two texts are the same.
pub fn same_text(a: &str, b: &str) -> (r: bool)
    ensures
        r == (a@ == b@),
{
    let n = a.unicode_len();
    if n != b.unicode_len() {
        return false;
    }
    let mut i: usize = 0;
    while i < n
        invariant
            n == a@.len(),
            n == b@.len(),
            i <= n,
            forall|j: int| 0 <= j < i ==> a@[j] == b@[j],
        decreases n - i,
    {
        if a.get_char(i) != b.get_char(i) {
            return false;
        }
        i = i + 1;
    }
    assert(a@ =~= b@);
    true
}

/// Whether `name` is a deciding fact.
pub fn is_deciding(name: &str) -> (r: bool)
    ensures
        r == deciding(name@),
{
    let n = name.unicode_len();
    let mut k: usize = 0;
    while k < n && name.get_char(k) != '.'
        invariant
            n == name@.len(),
            k <= n,
            first_dot(name@, 0) == first_dot(name@, k as int),
        decreases n - k,
    {
        k = k + 1;
    }
    let head = name.substring_char(0, k);
    proof {
        if k < n {
            assert(first_dot(name@, k as int) == k);
        } else {
            assert(name@.subrange(0, k as int) =~= name@);
        }
    }
    same_text(head, "codec") || same_text(head, "path") || same_text(head, "layout")
}

impl StorageFactSet {
    /// A set stating nothing, which is what a store written before there
    /// were facts says.
    pub fn new() -> (r: StorageFactSet)
        ensures
            r@ == FactsView::empty(),
    {
        let r = StorageFactSet {facts: Vec::new() };
        assert(r@ =~= FactsView::empty());
        r
    }

    /// The facts, in name order.
    pub fn len(&self) -> (n: usize)
        ensures
            n == self@.len(),
    {
        self.facts.len()
    }

    /// Where `name` stands, or where it would go.
    fn position(&self, name: &str) -> (r: (usize, bool))
        ensures
            r.0 <= self@.len(),
            forall|i: int| 0 <= i < r.0 ==> text_less(#[trigger] self@[i].0, name@),
            r.1 ==> r.0 < self@.len() && self@[r.0 as int].0 == name@,
            !r.1 ==> forall|i: int| r.0 <= i < self@.len() ==> text_less(name@, #[trigger] self@[i].0),
    {
        proof {
            use_type_invariant(self);
        }
        let mut k: usize = 0;
        while k < self.facts.len()
            invariant
                k <= self@.len(),
                self@.len() == self.facts@.len(),
                sorted_by_name(self@),
                forall|i: int| 0 <= i < k ==> text_less(#[trigger] self@[i].0, name@),
            decreases self@.len() - k,
        {
            assert(self@[k as int].0 == self.facts@[k as int].0@);
            if !text_precedes(self.facts[k].0.as_str(), name) {
                if same_text(self.facts[k].0.as_str(), name) {
                    return (k, true);
                }
                proof {
                    lemma_text_less_total(self@[k as int].0, name@);
                    assert forall|i: int| k <= i < self@.len() implies text_less(name@, #[trigger] self@[i].0) by {
                        if i > k {
                            lemma_text_less_transitive(name@, self@[k as int].0, self@[i].0);
                        }
                    }
                }
                return (k, false);
            }
            k = k + 1;
        }
        (k, false)
    }

    /// The value recorded under `name`.
    pub fn get(&self, name: &str) -> (r: Option<&str>)
        ensures
            match r {
                Some(v) => fact_of(self@, name@) == Some(v@),
                None => fact_of(self@, name@) is None,
            },
    {
        proof {
            use_type_invariant(self);
            lemma_fact_map(self@);
        }
        let (k, found) = self.position(name);
        if found {
            assert(self@[k as int].1 == self.facts@[k as int].1@);
            Some(self.facts[k].1.as_str())
        } else {
            proof {
                assert forall|i: int| 0 <= i < self@.len() implies self@[i].0 != name@ by {
                    if i < k {
                        assert(text_less(self@[i].0, name@));
                        lemma_text_less_irreflexive(name@);
                    } else {
                        assert(text_less(name@, self@[i].0));
                        lemma_text_less_irreflexive(name@);
                    }
                }
            }
            None
        }
    }

    /// Every fact stated, as a name and a value, in name order.
    pub fn pairs(&self) -> (r: &[(String, String)])
        ensures
            pair_views(r@) == self@,
    {
        self.facts.as_slice()
    }

    /// Whether the set states nothing.
    pub fn is_empty(&self) -> (r: bool)
        ensures
            r == (self@.len() == 0),
    {
        self.facts.len() == 0
    }

    /// Records `name` at `value`, replacing what was recorded there.
    fn put(&mut self, name: String, value: String)
        ensures
            fact_map(final(self)@) == fact_map(old(self)@).insert(name@, value@),
    {
        proof {
            use_type_invariant(&*self);
            lemma_fact_map(self@);
        }
        let ghost before = self@;
        let (k, found) = self.position(name.as_str());
        let ghost n = name@;
        let ghost v = value@;
        if found {
            let ghost after = before.update(k as int, (n, v));
            proof {
                assert(sorted_by_name(after));
                lemma_fact_map(after);
                assert(fact_map(after) =~= fact_map(before).insert(n, v)) by {
                    assert forall|x: Seq<char>| #[trigger] fact_map(after).contains_key(x) <==> fact_map(before).insert(n, v).contains_key(x) by {
                        if exists|i: int| 0 <= i < before.len() && before[i].0 == x {
                            let i = choose|i: int| 0 <= i < before.len() && before[i].0 == x;
                            assert(after[i].0 == x);
                        }
                        if exists|i: int| 0 <= i < after.len() && after[i].0 == x {
                            let i = choose|i: int| 0 <= i < after.len() && after[i].0 == x;
                            assert(before[i].0 == x);
                        }
                    }
                    assert forall|x: Seq<char>| #[trigger] fact_map(after).contains_key(x) implies fact_map(after)[x] == fact_map(before).insert(n, v)[x] by {
                        let i = choose|i: int| 0 <= i < after.len() && after[i].0 == x;
                        assert(fact_map(after)[after[i].0] == after[i].1);
                        if i != k {
                            assert(before[i] == after[i]);
                            lemma_text_less_irreflexive(n);
                            if i < k {
                                assert(text_less(before[i].0, before[k as int].0));
                            } else {
                                assert(text_less(before[k as int].0, before[i].0));
                            }
                        }
                    }
                }
            }
            let mut facts: Vec<(String, String)> = Vec::new();
            std::mem::swap(&mut facts, &mut self.facts);
            facts.set(k, (name, value));
            assert(pair_views(facts@) =~= after);
            self.facts = facts;
            assert(self@ =~= after);
        } else {
            let ghost after = before.insert(k as int, (n, v));
            proof {
                assert forall|i: int, j: int| 0 <= i < j < after.len() implies text_less(#[trigger] after[i].0, #[trigger] after[j].0) by {
                    if j < k {
                        assert(after[i] == before[i] && after[j] == before[j]);
                    } else if j == k {
                        assert(after[i] == before[i]);
                    } else if i < k {
                        assert(after[i] == before[i] && after[j] == before[j - 1]);
                        lemma_text_less_transitive(before[i].0, n, before[j - 1].0);
                    } else if i == k {
                        assert(after[j] == before[j - 1]);
                    } else {
                        assert(after[i] == before[i - 1] && after[j] == before[j - 1]);
                    }
                }
                lemma_fact_map(after);
                assert(fact_map(after) =~= fact_map(before).insert(n, v)) by {
                    assert forall|x: Seq<char>| #[trigger] fact_map(after).contains_key(x) <==> fact_map(before).insert(n, v).contains_key(x) by {
                        if exists|i: int| 0 <= i < before.len() && before[i].0 == x {
                            let i = choose|i: int| 0 <= i < before.len() && before[i].0 == x;
                            if i < k {
                                assert(after[i].0 == x);
                            } else {
                                assert(after[i + 1].0 == x);
                            }
                        }
                        if x == n {
                            assert(after[k as int].0 == x);
                        }
                        if exists|i: int| 0 <= i < after.len() && after[i].0 == x {
                            let i = choose|i: int| 0 <= i < after.len() && after[i].0 == x;
                            if i < k {
                                assert(before[i].0 == x);
                            } else if i > k {
                                assert(before[i - 1].0 == x);
                            }
                        }
                    }
                    assert forall|x: Seq<char>| #[trigger] fact_map(after).contains_key(x) implies fact_map(after)[x] == fact_map(before).insert(n, v)[x] by {
                        let i = choose|i: int| 0 <= i < after.len() && after[i].0 == x;
                        assert(fact_map(after)[after[i].0] == after[i].1);
                        if i < k {
                            assert(after[i] == before[i]);
                            lemma_text_less_irreflexive(n);
                        } else if i > k {
                            assert(after[i] == before[i - 1]);
                            lemma_text_less_irreflexive(n);
                        }
                    }
                }
            }
            let mut facts: Vec<(String, String)> = Vec::new();
            std::mem::swap(&mut facts, &mut self.facts);
            facts.insert(k, (name, value));
            assert(pair_views(facts@) =~= after);
            self.facts = facts;
            assert(self@ =~= after);
        }
    }

    /// This set, with `name` recorded at `value`.
    pub fn with(self, name: &str, value: &str) -> (r: StorageFactSet)
        ensures
            fact_map(r@) == fact_map(self@).insert(name@, value@),
    {
        let mut r = self;
        r.put(String::from_str(name), String::from_str(value));
        r
    }

    /// What this build writes for `engine`.
    pub fn of(engine: Backend) -> (r: StorageFactSet)
        ensures
            fact_map(r@) == facts_of(engine),
    {
        proof {
            reveal_strlit("path.sep");
            reveal_strlit("path.escape");
            reveal_strlit("path.key");
            reveal_strlit("layout");
            reveal_strlit("codec");
            reveal_strlit("codec.struct");
            reveal_strlit("codec.bytes");
            reveal_strlit("msgpack");
            reveal_strlit("sonic-json");
            reveal_strlit("json");
            reveal_strlit("toml");
            reveal_strlit("ron");
        }
        let mut facts = StorageFactSet::new();
        let ghost m0 = fact_map(facts@);
        assert(m0 =~= Map::<Seq<char>, Seq<char>>::empty());
        facts.put(String::from_str("path.sep"), String::from_str("."));
        facts.put(String::from_str("path.escape"), String::from_str("\\"));
        facts.put(String::from_str("path.key"), String::from_str(key_name(engine)));
        facts.put(String::from_str("layout"), String::from_str(layout_name(engine)));
        let ghost common = fact_map(facts@);
        assert(common =~= Map::<Seq<char>, Seq<char>>::empty()
            .insert("path.sep"@, "."@)
            .insert("path.escape"@, "\\"@)
            .insert("path.key"@, key_of(engine))
            .insert("layout"@, layout_of(engine)));
        let codec = codec_name(engine);
        facts.put(String::from_str("codec"), String::from_str(codec));
        if engine == Backend::Redb {
            facts.put(String::from_str("codec.struct"), String::from_str("map"));
            facts.put(String::from_str("codec.bytes"), String::from_str("bin"));
            assert(fact_map(facts@) =~= facts_of(engine));
        } else {
            assert(fact_map(facts@) =~= facts_of(engine));
        }
        facts
    }
}


impl Default for StorageFactSet {
    /// A set stating nothing, which is what a store written before there were
    /// facts says.
    fn default() -> (r: StorageFactSet)
        ensures
            r@ == FactsView::empty(),
    {
        StorageFactSet::new()
    }
}

impl StorageFactSet {
    /// Whether the two sets state the same facts in the same order.
    pub fn same_as(&self, other: &StorageFactSet) -> (r: bool)
        ensures
            r == (self@ == other@),
    {
        if self.facts.len() != other.facts.len() {
            return false;
        }
        let mut i: usize = 0;
        while i < self.facts.len()
            invariant
                i <= self@.len(),
                self@.len() == other@.len(),
                self@.len() == self.facts@.len(),
                other@.len() == other.facts@.len(),
                forall|j: int| 0 <= j < i ==> self@[j] == other@[j],
            decreases self@.len() - i,
        {
            assert(self@[i as int] == (self.facts@[i as int].0@, self.facts@[i as int].1@));
            assert(other@[i as int] == (other.facts@[i as int].0@, other.facts@[i as int].1@));
            if self.facts[i].0 != other.facts[i].0 || self.facts[i].1 != other.facts[i].1 {
                return false;
            }
            i = i + 1;
        }
        assert(self@ =~= other@);
        true
    }

    /// Whether a build writing `ours` may open a store recording this: `Ok`
    /// where the two agree on every deciding fact either of them states,
    /// otherwise a refusal naming the first fact they part on. Recording
    /// nothing at all decides nothing.
    pub fn read_by(&self, ours: &StorageFactSet) -> (r: Result<(), FactRefusal>)
        ensures
            match r {
                Ok(()) => refusal(self@, ours@) is None,
                Err(e) => refusal(self@, ours@) == Some(e@),
            },
            r is Ok <==> (self@.len() == 0 || agree(self@, ours@)),
    {
        proof {
            use_type_invariant(self);
            use_type_invariant(ours);
            opening_is_agreeing_on_the_deciding_facts(self@, ours@);
        }
        self.first_refusal(ours)
    }

    fn first_refusal(&self, ours: &StorageFactSet) -> (r: Result<(), FactRefusal>)
        ensures
            match r {
                Ok(()) => refusal(self@, ours@) is None,
                Err(e) => refusal(self@, ours@) == Some(e@),
            },
    {
        if self.is_empty() {
            return Ok(());
        }
        let mut k: usize = 0;
        while k < self.facts.len()
            invariant
                k <= self@.len(),
                self@.len() == self.facts@.len(),
                first_unknown(self@, ours@, 0) == first_unknown(self@, ours@, k as int),
            decreases self@.len() - k,
        {
            let name = &self.facts[k].0;
            let value = &self.facts[k].1;
            assert(self@[k as int] == (name@, value@));
            if is_deciding(name.as_str()) {
                match ours.get(name.as_str()) {
                    None => {
                        return Err(FactRefusal::UnknownFact {name: name.clone(), value: value.clone() });
                    },
                    Some(known) => {
                        if !same_text(known, value.as_str()) {
                            return Err(FactRefusal::UnknownValue {
                                name: name.clone(),
                                theirs: value.clone(),
                                ours: String::from_str(known),
                            });
                        }
                    },
                }
            }
            k = k + 1;
        }
        let mut k: usize = 0;
        while k < ours.facts.len()
            invariant
                k <= ours@.len(),
                ours@.len() == ours.facts@.len(),
                first_unknown(self@, ours@, 0) is None,
                self@.len() > 0,
                first_unrecorded(self@, ours@, 0) == first_unrecorded(self@, ours@, k as int),
            decreases ours@.len() - k,
        {
            let name = &ours.facts[k].0;
            let value = &ours.facts[k].1;
            assert(ours@[k as int] == (name@, value@));
            if is_deciding(name.as_str()) && self.get(name.as_str()).is_none() {
                return Err(FactRefusal::NotRecorded {name: name.clone(), ours: value.clone() });
            }
            k = k + 1;
        }
        Ok(())
    }

    /// The facts `ours` has no name for, kept so a later write does not drop
    /// them.
    pub fn unknown_to(&self, ours: &StorageFactSet) -> (r: StorageFactSet)
        ensures
            fact_map(r@) == Map::new(
                |n: Seq<char>| fact_of(self@, n) is Some && fact_of(ours@, n) is None,
                |n: Seq<char>| fact_map(self@)[n],
            ),
    {
        proof {
            use_type_invariant(self);
        }
        let ghost sv = self@;
        let mut r = StorageFactSet::new();
        assert(fact_map(r@) =~= unknown_upto(sv, ours@, 0));
        let mut k: usize = 0;
        while k < self.facts.len()
            invariant
                k <= sv.len(),
                sv == self@,
                sv.len() == self.facts@.len(),
                fact_map(r@) == unknown_upto(sv, ours@, k as int),
            decreases sv.len() - k,
        {
            let name = &self.facts[k].0;
            let value = &self.facts[k].1;
            assert(sv[k as int] == (name@, value@));
            if ours.get(name.as_str()).is_none() {
                r.put(name.clone(), value.clone());
            }
            k = k + 1;
        }
        proof {
            lemma_unknown_upto(sv, ours@, sv.len() as int);
            lemma_fact_map(sv);
            assert(unknown_upto(sv, ours@, sv.len() as int) =~= Map::new(
                |n: Seq<char>| fact_of(sv, n) is Some && fact_of(ours@, n) is None,
                |n: Seq<char>| fact_map(sv)[n],
            ));
        }
        r
    }

    /// This set, with `kept` filled in where it says nothing.
    pub fn carrying(self, kept: &StorageFactSet) -> (r: StorageFactSet)
        ensures
            fact_map(r@) == fact_map(kept@).union_prefer_right(fact_map(self@)),
    {
        proof {
            use_type_invariant(kept);
        }
        let ghost base = fact_map(self@);
        let ghost kv = kept@;
        let mut r = self;
        assert(kv.take(0) =~= FactsView::empty());
        assert(fact_map(r@) =~= fact_map(kv.take(0)).union_prefer_right(base));
        let mut k: usize = 0;
        while k < kept.facts.len()
            invariant
                k <= kv.len(),
                kv == kept@,
                kv.len() == kept.facts@.len(),
                sorted_by_name(kv),
                fact_map(r@) == fact_map(kv.take(k as int)).union_prefer_right(base),
            decreases kv.len() - k,
        {
            let name = &kept.facts[k].0;
            let value = &kept.facts[k].1;
            assert(kv[k as int] == (name@, value@));
            assert(kv.take(k + 1).drop_last() =~= kv.take(k as int));
            proof {
                assert(sorted_by_name(kv.take(k as int)));
                lemma_fact_map(kv.take(k as int));
                if fact_map(kv.take(k as int)).contains_key(name@) {
                    let j = choose|j: int| 0 <= j < k && kv.take(k as int)[j].0 == name@;
                    assert(text_less(kv[j].0, kv[k as int].0));
                    lemma_text_less_irreflexive(name@);
                }
            }
            if r.get(name.as_str()).is_none() {
                r.put(name.clone(), value.clone());
            }
            k = k + 1;
            assert(fact_map(r@) =~= fact_map(kv.take(k as int)).union_prefer_right(base));
        }
        assert(kv.take(kv.len() as int) =~= kv);
        r
    }
}

/// The facts among the first `k` that `ours` has no name for.
pub open spec fn unknown_upto(sv: FactsView, ours: FactsView, k: int) -> Map<Seq<char>, Seq<char>>
    decreases k,
{
    if k <= 0 {
        Map::empty()
    } else if fact_of(ours, sv[k - 1].0) is None {
        unknown_upto(sv, ours, k - 1).insert(sv[k - 1].0, sv[k - 1].1)
    } else {
        unknown_upto(sv, ours, k - 1)
    }
}

proof fn lemma_unknown_upto(sv: FactsView, ours: FactsView, k: int)
    requires
        sorted_by_name(sv),
        0 <= k <= sv.len(),
    ensures
        unknown_upto(sv, ours, k) == Map::new(
            |n: Seq<char>| (exists|j: int| 0 <= j < k && #[trigger] sv[j].0 == n) && fact_of(ours, n) is None,
            |n: Seq<char>| fact_map(sv)[n],
        ),
    decreases k,
{
    lemma_fact_map(sv);
    if k > 0 {
        lemma_unknown_upto(sv, ours, k - 1);
        let want = Map::new(
            |n: Seq<char>| (exists|j: int| 0 <= j < k && #[trigger] sv[j].0 == n) && fact_of(ours, n) is None,
            |n: Seq<char>| fact_map(sv)[n],
        );
        assert forall|n: Seq<char>| #[trigger] unknown_upto(sv, ours, k).contains_key(n) <==> want.contains_key(n) by {
            if want.contains_key(n) {
                let j = choose|j: int| 0 <= j < k && #[trigger] sv[j].0 == n;
                if j < k - 1 {
                    assert(exists|j: int| 0 <= j < k - 1 && #[trigger] sv[j].0 == n);
                }
            }
            if unknown_upto(sv, ours, k - 1).contains_key(n) {
                let j = choose|j: int| 0 <= j < k - 1 && #[trigger] sv[j].0 == n;
                assert(0 <= j < k && sv[j].0 == n);
            }
        }
        assert(unknown_upto(sv, ours, k) =~= want);
    } else {
        assert(unknown_upto(sv, ours, k) =~= Map::new(
            |n: Seq<char>| (exists|j: int| 0 <= j < k && #[trigger] sv[j].0 == n) && fact_of(ours, n) is None,
            |n: Seq<char>| fact_map(sv)[n],
        ));
    }
    if k == sv.len() {
        assert(Map::new(
            |n: Seq<char>| (exists|j: int| 0 <= j < k && #[trigger] sv[j].0 == n) && fact_of(ours, n) is None,
            |n: Seq<char>| fact_map(sv)[n],
        ) =~= Map::new(
            |n: Seq<char>| fact_of(sv, n) is Some && fact_of(ours, n) is None,
            |n: Seq<char>| fact_map(sv)[n],
        ));
    }
}

/// What the store's facts come to once this build has read them: refused,
/// nothing to write, or this set to write back.
pub open spec fn settled_map(theirs: FactsView, engine: Backend) -> Map<Seq<char>, Seq<char>> {
    Map::new(
        |n: Seq<char>| fact_of(theirs, n) is Some && !facts_of(engine).contains_key(n),
        |n: Seq<char>| fact_map(theirs)[n],
    ).union_prefer_right(facts_of(engine))
}

/// What opening does with the facts a store records: a store recording none
/// is given this build's; one this build cannot honour is refused; otherwise
/// this build's facts, with whatever it does not recognise carried through,
/// are written back where they differ from what is there.
pub fn settled(found: Option<&StorageFactSet>, engine: Backend) -> (r: Result<Option<StorageFactSet>, FactRefusal>)
    ensures
        found is None ==> (r matches Ok(Some(s)) && fact_map(s@) == facts_of(engine)),
        found matches Some(theirs) ==> exists|ours: FactsView| {
            &&& sorted_by_name(ours)
            &&& fact_map(ours) == facts_of(engine)
            &&& match refusal(theirs@, ours) {
                Some(e) => r matches Err(x) && x@ == e,
                None => match r {
                    Ok(None) => fact_map(theirs@) == settled_map(theirs@, engine),
                    Ok(Some(s)) => fact_map(s@) == settled_map(theirs@, engine) && s@ != theirs@,
                    Err(_) => false,
                },
            }
        },
{
    let ours = StorageFactSet::of(engine);
    proof {
        use_type_invariant(&ours);
    }
    match found {
        None => Ok(Some(ours)),
        Some(theirs) => {
            proof {
                use_type_invariant(theirs);
                lemma_fact_map(theirs@);
            }
            let ghost ov = ours@;
            match theirs.read_by(&ours) {
                Err(e) => {
                    return Err(e);
                },
                Ok(()) => {},
            }
            let kept = theirs.unknown_to(&ours);
            let settled = ours.carrying(&kept);
            proof {
                assert(fact_map(settled@) =~= settled_map(theirs@, engine));
            }
            if settled.same_as(theirs) {
                Ok(None)
            } else {
                Ok(Some(settled))
            }
        },
    }
}

/// A set is read by itself: a store written by this build opens.
pub proof fn a_store_written_by_this_build_opens(facts: FactsView)
    requires
        sorted_by_name(facts),
    ensures
        refusal(facts, facts) is None,
{
    if facts.len() > 0 {
        lemma_fact_map(facts);
        lemma_no_unknown_in_itself(facts, 0);
        lemma_none_unrecorded_in_itself(facts, 0);
    }
}

proof fn lemma_no_unknown_in_itself(facts: FactsView, k: int)
    requires
        sorted_by_name(facts),
        0 <= k,
    ensures
        first_unknown(facts, facts, k) is None,
    decreases facts.len() - k,
{
    if k < facts.len() {
        lemma_fact_map(facts);
        assert(fact_of(facts, facts[k].0) == Some(facts[k].1));
        lemma_no_unknown_in_itself(facts, k + 1);
    }
}

proof fn lemma_none_unrecorded_in_itself(facts: FactsView, k: int)
    requires
        sorted_by_name(facts),
        0 <= k,
    ensures
        first_unrecorded(facts, facts, k) is None,
    decreases facts.len() - k,
{
    if k < facts.len() {
        lemma_fact_map(facts);
        assert(fact_map(facts).contains_key(facts[k].0));
        lemma_none_unrecorded_in_itself(facts, k + 1);
    }
}


proof fn lemma_first_unknown_none(t: FactsView, o: FactsView, k: int)
    requires
        0 <= k <= t.len(),
    ensures
        first_unknown(t, o, k) is None <==> forall|i: int| k <= i < t.len() && deciding(#[trigger] t[i].0)
            ==> fact_of(o, t[i].0) == Some(t[i].1),
    decreases t.len() - k,
{
    if k < t.len() {
        lemma_first_unknown_none(t, o, k + 1);
    }
}

proof fn lemma_first_unrecorded_none(t: FactsView, o: FactsView, k: int)
    requires
        0 <= k <= o.len(),
    ensures
        first_unrecorded(t, o, k) is None <==> forall|i: int| k <= i < o.len() && deciding(#[trigger] o[i].0)
            ==> fact_of(t, o[i].0) is Some,
    decreases o.len() - k,
{
    if k < o.len() {
        lemma_first_unrecorded_none(t, o, k + 1);
    }
}

/// A build may open a store exactly when the store records nothing, or the
/// two agree on every deciding fact either of them states; facts outside the
/// deciding namespaces never stop it.
pub proof fn opening_is_agreeing_on_the_deciding_facts(theirs: FactsView, ours: FactsView)
    requires
        sorted_by_name(theirs),
        sorted_by_name(ours),
    ensures
        refusal(theirs, ours) is None <==> (theirs.len() == 0 || agree(theirs, ours)),
{
    lemma_fact_map(theirs);
    lemma_fact_map(ours);
    lemma_first_unknown_none(theirs, ours, 0);
    lemma_first_unrecorded_none(theirs, ours, 0);
    if theirs.len() > 0 {
        if refusal(theirs, ours) is None {
            assert forall|n: Seq<char>| #[trigger] deciding(n) && fact_of(theirs, n) is Some implies fact_of(ours, n) == fact_of(theirs, n) by {
                let i = choose|i: int| 0 <= i < theirs.len() && theirs[i].0 == n;
                assert(deciding(theirs[i].0));
            }
            assert forall|n: Seq<char>| #[trigger] deciding(n) && fact_of(ours, n) is Some implies fact_of(theirs, n) is Some by {
                let i = choose|i: int| 0 <= i < ours.len() && ours[i].0 == n;
                assert(deciding(ours[i].0));
            }
        }
        if agree(theirs, ours) {
            assert forall|i: int| 0 <= i < theirs.len() && deciding(#[trigger] theirs[i].0) implies fact_of(ours, theirs[i].0) == Some(theirs[i].1) by {
                assert(fact_map(theirs).contains_key(theirs[i].0));
            }
            assert forall|i: int| 0 <= i < ours.len() && deciding(#[trigger] ours[i].0) implies fact_of(theirs, ours[i].0) is Some by {
                assert(fact_map(ours).contains_key(ours[i].0));
            }
        }
    }
}

/// What a refusal says, for whoever has to fix the store.
pub open spec fn refusal_text(e: RefusalView) -> Seq<char> {
    match e {
        RefusalView::UnknownFact {name, value } => "unknown fact: "@ + name + "="@ + value
            + ": the store was written by a newer build, and this fact decides how its bytes read"@,
        RefusalView::UnknownValue {name, theirs, ours } => "fact "@ + name + " is "@ + theirs
            + ", and this build writes "@ + ours
            + ": a known fact with an unknown value, which is the case that gets forgotten"@,
        RefusalView::NotRecorded {name, ours } => "the store records no "@ + name
            + ", and this build writes "@ + name + "="@ + ours
            + ": it was written while that fact said something else, so what its bytes hold cannot be told from what this build would write"@,
    }
}

impl FactRefusal {
    /// What the refusal says, naming the fact it is about.
    pub fn explain(&self) -> (r: String)
        ensures
            r@ == refusal_text(self@),
    {
        match self {
            FactRefusal::UnknownFact {name, value } => {
                let mut r = String::from_str("unknown fact: ");
                r.append(name.as_str());
                r.append("=");
                r.append(value.as_str());
                r.append(": the store was written by a newer build, and this fact decides how its bytes read");
                r
            },
            FactRefusal::UnknownValue {name, theirs, ours } => {
                let mut r = String::from_str("fact ");
                r.append(name.as_str());
                r.append(" is ");
                r.append(theirs.as_str());
                r.append(", and this build writes ");
                r.append(ours.as_str());
                r.append(": a known fact with an unknown value, which is the case that gets forgotten");
                r
            },
            FactRefusal::NotRecorded {name, ours } => {
                let mut r = String::from_str("the store records no ");
                r.append(name.as_str());
                r.append(", and this build writes ");
                r.append(name.as_str());
                r.append("=");
                r.append(ours.as_str());
                r.append(": it was written while that fact said something else, so what its bytes hold cannot be told from what this build would write");
                r
            },
        }
    }
}


/// Each engine records its own codec: no two engines record the same one, and
/// each text engine records the format its files are written in, the one its
/// extension names - so a store one text engine wrote is never taken for
/// another's.
pub proof fn each_engine_records_its_own_codec(a: Backend, b: Backend)
    ensures
        facts_of(a).contains_key("codec"@),
        a != b ==> facts_of(a)["codec"@] != facts_of(b)["codec"@],
        a == Backend::Json || a == Backend::Toml || a == Backend::Ron ==> facts_of(a)["codec"@] == crate::builder::extension_of(a),
{
    reveal_strlit("path.sep");
    reveal_strlit("path.escape");
    reveal_strlit("path.key");
    reveal_strlit("layout");
    reveal_strlit("codec");
    reveal_strlit("codec.struct");
    reveal_strlit("codec.bytes");
    reveal_strlit("msgpack");
    reveal_strlit("sonic-json");
    reveal_strlit("json");
    reveal_strlit("toml");
    reveal_strlit("ron");
    assert("codec"@.len() == 5);
    assert("codec.struct"@.len() == 12);
    assert("codec.bytes"@.len() == 11);
    assert("codec"@ != "codec.struct"@);
    assert("codec"@ != "codec.bytes"@);
    assert("msgpack"@.len() == 7);
    assert("sonic-json"@.len() == 10);
    assert("json"@.len() == 4);
    assert("toml"@.len() == 4);
    assert("ron"@.len() == 3);
    assert("json"@[0] != "toml"@[0]);
    assert("json"@ != "toml"@);
    assert(facts_of(a)["codec"@] == codec_of(a));
    assert(facts_of(b)["codec"@] == codec_of(b));
    if a != b {
        assert(codec_of(a) != codec_of(b));
    }
}

} // verus!
