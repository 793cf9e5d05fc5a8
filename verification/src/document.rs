//! A document's tree, and how a path is read, written and taken out of it.
//!
//! A document holds a value at a level or values under it, never both. What a
//! value is does not matter to the walk, so a leaf here is the bytes its codec
//! makes of it; a level holds its children by name, in the order the file
//! holds them, each name once.

use crate::changes::DocEvent;
use crate::declared::{Declared, Holds};
use crate::events::StoreOp;
use crate::path::{is_under, lemma_path_less_total, lemma_path_less_transitive, path_less, StorePath};
use vstd::prelude::*;

verus! {

/// What a node of a document holds.
pub enum Tree {
    Leaf(Seq<u8>),
    Level(Seq<(Seq<char>, Tree)>),
}

/// The children of a level, in the order the file holds them, each name
/// once.
pub struct Fields {
    entries: Vec<(String, Node)>,
}

/// A node of a document.
pub enum Node {
    Leaf(Vec<u8>),
    Level(Fields),
}

impl Node {
    /// What this node holds.
    pub closed spec fn tree(&self) -> Tree
        decreases self,
    {
        match self {
            Node::Leaf(b) => Tree::Leaf(b@),
            Node::Level(f) => {
                proof {
                    assert forall|i: int| 0 <= i < f.entries@.len() implies decreases_to!(self => f.entries@[i].1) by {
                        assert(decreases_to!(self => f));
                        assert(decreases_to!(f => f.entries));
                        assert(decreases_to!(f.entries => f.entries@));
                        assert(decreases_to!(f.entries@ => f.entries@[i]));
                        assert(decreases_to!(f.entries@[i] => f.entries@[i].1));
                    }
                }
                Tree::Level(
                    Seq::new(
                        f.entries@.len(),
                        |i: int| if 0 <= i < f.entries@.len() {
                            (f.entries@[i].0@, f.entries@[i].1.tree())
                        } else {
                            (Seq::empty(), Tree::Leaf(Seq::empty()))
                        },
                    ),
                )
            },
        }
    }
}

/// Children, as names and what each holds.
pub closed spec fn entry_trees(s: Seq<(String, Node)>) -> Seq<(Seq<char>, Tree)> {
    Seq::new(s.len(), |i: int| (s[i].0@, s[i].1.tree()))
}

proof fn lemma_leaf_tree(b: Vec<u8>)
    ensures
        Node::Leaf(b).tree() == Tree::Leaf(b@),
{
}

proof fn lemma_entry_trees(s: Seq<(String, Node)>)
    ensures
        entry_trees(s).len() == s.len(),
        forall|i: int| 0 <= i < s.len() ==> #[trigger] entry_trees(s)[i] == (s[i].0@, s[i].1.tree()),
{
}

proof fn lemma_level_tree(f: Fields)
    ensures
        Node::Level(f).tree() == Tree::Level(entry_trees(f.entries@)),
{
    assert(Node::Level(f).tree()->Level_0 =~= entry_trees(f.entries@));
}

/// Where `name` first stands among `es`, from `i` on, or -1.
pub open spec fn find_from(es: Seq<(Seq<char>, Tree)>, name: Seq<char>, i: int) -> int
    decreases es.len() - i,
{
    if i < 0 || i >= es.len() {
        -1
    } else if es[i].0 == name {
        i
    } else {
        find_from(es, name, i + 1)
    }
}

/// Where `name` stands among `es`, or -1.
pub open spec fn find(es: Seq<(Seq<char>, Tree)>, name: Seq<char>) -> int {
    find_from(es, name, 0)
}

proof fn lemma_find_from(es: Seq<(Seq<char>, Tree)>, name: Seq<char>, i: int)
    requires
        0 <= i,
    ensures
        find_from(es, name, i) == -1 ==> forall|j: int| i <= j < es.len() ==> es[j].0 != name,
        find_from(es, name, i) != -1 ==> {
            &&& i <= find_from(es, name, i) < es.len()
            &&& es[find_from(es, name, i)].0 == name
            &&& forall|j: int| i <= j < find_from(es, name, i) ==> es[j].0 != name
        },
    decreases es.len() - i,
{
    if i < es.len() && es[i].0 != name {
        lemma_find_from(es, name, i + 1);
    }
}

pub proof fn lemma_find(es: Seq<(Seq<char>, Tree)>, name: Seq<char>)
    ensures
        find(es, name) == -1 ==> forall|j: int| 0 <= j < es.len() ==> es[j].0 != name,
        find(es, name) != -1 ==> {
            &&& 0 <= find(es, name) < es.len()
            &&& es[find(es, name)].0 == name
            &&& forall|j: int| 0 <= j < find(es, name) ==> es[j].0 != name
        },
{
    lemma_find_from(es, name, 0);
}

/// The child of `t` called `name`, if `t` is a level holding one.
pub open spec fn child(t: Tree, name: Seq<char>) -> Option<Tree> {
    match t {
        Tree::Level(es) => if find(es, name) >= 0 {
            Some(es[find(es, name)].1)
        } else {
            None
        },
        Tree::Leaf(_) => None,
    }
}

/// What stands at `path` under `t`.
pub open spec fn at(t: Tree, path: Seq<Seq<char>>) -> Option<Tree>
    decreases path.len(),
{
    if path.len() == 0 {
        Some(t)
    } else {
        match child(t, path[0]) {
            Some(c) => at(c, path.drop_first()),
            None => None,
        }
    }
}

/// `es` with `name` holding `v`: where it stood if it was there, at the end
/// if it was not.
pub open spec fn put(es: Seq<(Seq<char>, Tree)>, name: Seq<char>, v: Tree) -> Seq<(Seq<char>, Tree)> {
    if find(es, name) >= 0 {
        es.update(find(es, name), (name, v))
    } else {
        es.push((name, v))
    }
}

/// Whether `t` is a level with something under it.
pub open spec fn has_children(t: Tree) -> bool {
    t matches Tree::Level(es) && es.len() > 0
}

/// Why a write was refused: a value sits at a level on the way, or values sit
/// under the place a value was to go.
#[derive(Debug, PartialEq, Eq)]
pub enum Occupied {
    Value { level: StorePath },
    Branch { level: StorePath },
}

pub enum OccupiedView {
    Value(Seq<Seq<char>>),
    Branch(Seq<Seq<char>>),
}

impl View for Occupied {
    type V = OccupiedView;

    open spec fn view(&self) -> OccupiedView {
        match self {
            Occupied::Value { level } => OccupiedView::Value(level@),
            Occupied::Branch { level } => OccupiedView::Branch(level@),
        }
    }
}

/// `v` written at `path` under `t`, which stands at the first `d` levels of
/// `path`: every missing level on the way is made, and the write is refused
/// where a value sits on the way, or where values sit under a level a value
/// would replace.
pub open spec fn set_at(t: Tree, path: Seq<Seq<char>>, d: int, v: Tree) -> Result<Tree, OccupiedView>
    decreases path.len() - d,
{
    if d < 0 || d >= path.len() {
        Ok(v)
    } else {
        match t {
            Tree::Leaf(_) => Err(OccupiedView::Value(path.take(d))),
            Tree::Level(es) => if d == path.len() - 1 {
                if !(v is Level) && (match child(t, path[d]) {
                    Some(c) => has_children(c),
                    None => false,
                }) {
                    Err(OccupiedView::Branch(path))
                } else {
                    Ok(Tree::Level(put(es, path[d], v)))
                }
            } else {
                let c = match child(t, path[d]) {
                    Some(c) => c,
                    None => Tree::Level(Seq::empty()),
                };
                match set_at(c, path, d + 1, v) {
                    Ok(c2) => Ok(Tree::Level(put(es, path[d], c2))),
                    Err(e) => Err(e),
                }
            },
        }
    }
}

/// Whether no name stands twice among `s`.
pub open spec fn distinct_names<V>(s: Seq<(String, V)>) -> bool {
    forall|i: int, j: int| 0 <= i < j < s.len() ==> s[i].0@ != s[j].0@
}

impl Fields {
    #[verifier::type_invariant]
    spec fn well_formed(self) -> bool {
        distinct_names(self.entries@)
    }

    /// A level holding nothing.
    pub fn new() -> (r: Fields)
        ensures
            Node::Level(r).tree() == Tree::Level(Seq::empty()),
    {
        let r = Fields { entries: Vec::new() };
        proof {
            lemma_level_tree(r);
            assert(entry_trees(r.entries@) =~= Seq::empty());
        }
        r
    }
}

/// Where `name` stands among `es`, if it does.
fn find_in(es: &Vec<(String, Node)>, name: &str) -> (r: Option<usize>)
    ensures
        find(entry_trees(es@), name@) == match r {
            Some(i) => i as int,
            None => -1,
        },
{
    let ghost s = entry_trees(es@);
    proof {
        lemma_find(s, name@);
    }
    let mut i: usize = 0;
    while i < es.len()
        invariant
            i <= es@.len(),
            s == entry_trees(es@),
            forall|j: int| 0 <= j < i ==> s[j].0 != name@,
        decreases es@.len() - i,
    {
        if crate::format::same_text(es[i].0.as_str(), name) {
            proof {
                assert(s[i as int].0 == name@);
                lemma_find(s, name@);
                if find(s, name@) != i as int {
                    if find(s, name@) == -1 {
                        assert(s[i as int].0 != name@);
                    }
                }
            }
            return Some(i);
        }
        proof {
            assert(s[i as int].0 != name@);
        }
        i = i + 1;
    }
    proof {
        lemma_find(s, name@);
        if find(s, name@) != -1 {
            let k = find(s, name@);
            assert(s[k].0 != name@);
        }
    }
    None
}

impl Node {
    /// A level holding nothing.
    pub fn empty_level() -> (r: Node)
        ensures
            r.tree() == Tree::Level(Seq::empty()),
            wf(r.tree()),
    {
        proof {
            lemma_level_wf(Seq::empty());
        }
        Node::Level(Fields::new())
    }

    /// A value, as the bytes its codec makes of it.
    pub fn leaf(bytes: Vec<u8>) -> (r: Node)
        ensures
            r.tree() == Tree::Leaf(bytes@),
            wf(r.tree()),
    {
        proof {
            lemma_leaf_wf(bytes@);
        }
        Node::Leaf(bytes)
    }

    /// The bytes of a value, or `None` for a level.
    pub fn value(&self) -> (r: Option<&Vec<u8>>)
        ensures
            match r {
                Some(b) => self.tree() == Tree::Leaf(b@),
                None => self.tree() is Level,
            },
    {
        match self {
            Node::Leaf(b) => {
                proof {
                    lemma_leaf_tree(*b);
                }
                Some(b)
            },
            Node::Level(f) => {
                proof {
                    lemma_level_tree(*f);
                }
                None
            },
        }
    }

    /// Whether this is a level rather than a value.
    pub fn is_level(&self) -> (r: bool)
        ensures
            r == (self.tree() is Level),
    {
        match self {
            Node::Leaf(b) => {
                proof {
                    lemma_leaf_tree(*b);
                }
                false
            },
            Node::Level(f) => {
                proof {
                    lemma_level_tree(*f);
                }
                true
            },
        }
    }

    /// Whether this is a level with something under it.
    pub fn has_children(&self) -> (r: bool)
        ensures
            r == has_children(self.tree()),
    {
        match self {
            Node::Leaf(b) => {
                proof {
                    lemma_leaf_tree(*b);
                }
                false
            },
            Node::Level(f) => {
                proof {
                    lemma_level_tree(*f);
                    lemma_entry_trees(f.entries@);
                }
                f.entries.len() > 0
            },
        }
    }

    /// The child called `name`, if this is a level holding one.
    pub fn get_child(&self, name: &str) -> (r: Option<&Node>)
        ensures
            match r {
                Some(c) => child(self.tree(), name@) == Some(c.tree()),
                None => child(self.tree(), name@) is None,
            },
    {
        match self {
            Node::Leaf(b) => {
                proof {
                    lemma_leaf_tree(*b);
                }
                None
            },
            Node::Level(f) => {
                proof {
                    lemma_level_tree(*f);
                    lemma_entry_trees(f.entries@);
                    lemma_find(entry_trees(f.entries@), name@);
                }
                match find_in(&f.entries, name) {
                    Some(i) => Some(&f.entries[i].1),
                    None => None,
                }
            },
        }
    }
}

/// What stands at `path` in the document rooted at `root`.
pub fn generic_get<'a>(root: &'a Node, path: &StorePath) -> (r: Option<&'a Node>)
    ensures
        match r {
            Some(n) => at(root.tree(), path@) == Some(n.tree()),
            None => at(root.tree(), path@) is None,
        },
{
    let mut current = root;
    let mut d: usize = 0;
    assert(path@.skip(0) =~= path@);
    while d < path.len()
        invariant
            d <= path@.len(),
            at(root.tree(), path@) == at(current.tree(), path@.skip(d as int)),
        decreases path@.len() - d,
    {
        let name = path.level(d);
        assert(path@.skip(d as int)[0] == path@[d as int]);
        assert(path@.skip(d as int).drop_first() =~= path@.skip(d + 1));
        match current.get_child(name.as_str()) {
            Some(next) => {
                current = next;
            },
            None => {
                return None;
            },
        }
        d = d + 1;
    }
    assert(path@.skip(d as int) =~= Seq::<Seq<char>>::empty());
    Some(current)
}

/// A level holding `es`, which name no child twice.
fn level_of(es: Vec<(String, Node)>) -> (r: Node)
    requires
        distinct_names(es@),
    ensures
        r.tree() == Tree::Level(entry_trees(es@)),
{
    let f = Fields { entries: es };
    proof {
        lemma_level_tree(f);
    }
    Node::Level(f)
}

proof fn lemma_put_found(es: Seq<(String, Node)>, i: int, name: String, n: Node)
    requires
        0 <= i < es.len(),
        find(entry_trees(es), name@) == i,
    ensures
        entry_trees(es.update(i, (name, n))) == put(entry_trees(es), name@, n.tree()),
        distinct_names(es) ==> distinct_names(es.update(i, (name, n))),
{
    lemma_find(entry_trees(es), name@);
    assert(entry_trees(es.update(i, (name, n))) =~= put(entry_trees(es), name@, n.tree()));
    assert(entry_trees(es)[i].0 == es[i].0@);
    if distinct_names(es) {
        let t = es.update(i, (name, n));
        assert forall|a: int, b: int| 0 <= a < b < t.len() implies t[a].0@ != t[b].0@ by {
            assert(t[a].0@ == es[a].0@);
            assert(t[b].0@ == es[b].0@);
        }
    }
}

proof fn lemma_put_missing(es: Seq<(String, Node)>, name: String, n: Node)
    requires
        find(entry_trees(es), name@) == -1,
    ensures
        entry_trees(es.push((name, n))) == put(entry_trees(es), name@, n.tree()),
        distinct_names(es) ==> distinct_names(es.push((name, n))),
{
    lemma_find(entry_trees(es), name@);
    assert(entry_trees(es.push((name, n))) =~= put(entry_trees(es), name@, n.tree()));
    if distinct_names(es) {
        let t = es.push((name, n));
        assert forall|a: int, b: int| 0 <= a < b < t.len() implies t[a].0@ != t[b].0@ by {
            assert(entry_trees(es)[a].0 == es[a].0@);
            if b < es.len() {
                assert(t[b] == es[b]);
            }
        }
    }
}

/// `v` written at `path` under `n`, which stands at the first `d` levels of
/// `path`; on a refusal, `n` as it was and why.
fn set_in(n: Node, path: &StorePath, d: usize, v: Node) -> (r: Result<Node, (Node, Occupied)>)
    requires
        d <= path@.len(),
    ensures
        match set_at(n.tree(), path@, d as int, v.tree()) {
            Ok(t) => r matches Ok(m) && m.tree() == t,
            Err(e) => r matches Err((m, o)) && m.tree() == n.tree() && o@ == e,
        },
    decreases path@.len() - d,
{
    if d >= path.len() {
        return Ok(v);
    }
    match n {
        Node::Leaf(b) => {
            proof {
                lemma_leaf_tree(b);
            }
            let level = path.prefix(d);
            assert(level@ =~= path@.take(d as int));
            Err((Node::Leaf(b), Occupied::Value { level }))
        },
        Node::Level(f) => {
            proof {
                use_type_invariant(&f);
                lemma_level_tree(f);
            }
            let Fields { entries } = f;
            let mut es = entries;
            let ghost was = es@;
            let name = path.level(d);
            let found = find_in(&es, name.as_str());
            proof {
                lemma_entry_trees(was);
                lemma_find(entry_trees(was), name@);
            }
            if d + 1 == path.len() {
                if !v.is_level() {
                    if let Some(i) = found {
                        if es[i].1.has_children() {
                            return Err((level_of(es), Occupied::Branch { level: path.copied() }));
                        }
                    }
                }
                let key = name.clone();
                match found {
                    Some(i) => {
                        proof {
                            lemma_put_found(was, i as int, key, v);
                        }
                        es.set(i, (key, v));
                    },
                    None => {
                        proof {
                            lemma_put_missing(was, key, v);
                        }
                        es.push((key, v));
                    },
                }
                Ok(level_of(es))
            } else {
                match found {
                    Some(i) => {
                        let (k, c) = es.remove(i);
                        let ghost rest = es@;
                        assert(rest =~= was.remove(i as int));
                        match set_in(c, path, d + 1, v) {
                            Ok(c2) => {
                                es.insert(i, (k, c2));
                                proof {
                                    assert(es@ =~= was.update(i as int, (k, c2)));
                                    lemma_put_found(was, i as int, k, c2);
                                }
                                Ok(level_of(es))
                            },
                            Err((back, why)) => {
                                es.insert(i, (k, back));
                                proof {
                                    assert(es@ =~= was.update(i as int, (k, back)));
                                    lemma_put_found(was, i as int, k, back);
                                    assert(entry_trees(es@) =~= entry_trees(was));
                                }
                                Err((level_of(es), why))
                            },
                        }
                    },
                    None => {
                        match set_in(Node::empty_level(), path, d + 1, v) {
                            Ok(c2) => {
                                let key = name.clone();
                                proof {
                                    lemma_put_missing(was, key, c2);
                                }
                                es.push((key, c2));
                                Ok(level_of(es))
                            },
                            Err((_, why)) => Err((level_of(es), why)),
                        }
                    },
                }
            }
        },
    }
}

/// Writes `node` at `path` in the document rooted at `root`, making every
/// missing level on the way. Refused, and nothing touched, where a value sits
/// at a level on the way, or where a value would replace a level holding
/// values.
pub fn generic_set(root: &mut Node, path: &StorePath, node: Node) -> (r: Result<(), Occupied>)
    ensures
        match set_at(old(root).tree(), path@, 0, node.tree()) {
            Ok(t) => r is Ok && final(root).tree() == t,
            Err(e) => r matches Err(o) && o@ == e && final(root).tree() == old(root).tree(),
        },
        wf(old(root).tree()) && wf(node.tree()) ==> wf(final(root).tree()),
{
    proof {
        if wf(root.tree()) && wf(node.tree()) {
            lemma_set_keeps_wf(root.tree(), path@, 0, node.tree());
        }
    }
    let mut held = Node::empty_level();
    std::mem::swap(&mut held, root);
    match set_in(held, path, 0, node) {
        Ok(m) => {
            *root = m;
            Ok(())
        },
        Err((back, why)) => {
            *root = back;
            Err(why)
        },
    }
}

proof fn lemma_find_from_same_names(a: Seq<(Seq<char>, Tree)>, b: Seq<(Seq<char>, Tree)>, name: Seq<char>, i: int)
    requires
        a.len() == b.len(),
        forall|j: int| 0 <= j < a.len() ==> a[j].0 == b[j].0,
    ensures
        find_from(a, name, i) == find_from(b, name, i),
    decreases a.len() - i,
{
    if 0 <= i < a.len() && a[i].0 != name {
        lemma_find_from_same_names(a, b, name, i + 1);
    }
}

/// Where a name is found depends on the names alone.
proof fn lemma_find_same_names(a: Seq<(Seq<char>, Tree)>, b: Seq<(Seq<char>, Tree)>, name: Seq<char>)
    requires
        a.len() == b.len(),
        forall|j: int| 0 <= j < a.len() ==> a[j].0 == b[j].0,
    ensures
        find(a, name) == find(b, name),
{
    lemma_find_from_same_names(a, b, name, 0);
}

/// After `name` is put, it holds what was put there.
pub proof fn lemma_child_put_same(es: Seq<(Seq<char>, Tree)>, name: Seq<char>, v: Tree)
    ensures
        child(Tree::Level(put(es, name, v)), name) == Some(v),
{
    let u = put(es, name, v);
    lemma_find(es, name);
    lemma_find(u, name);
    if find(es, name) >= 0 {
        let i = find(es, name);
        assert(u[i].0 == name);
        let f = find(u, name);
        if f > i {
            assert(u[i].0 != name);
        }
        if 0 <= f < i {
            assert(u[f] == es[f]);
        }
    } else {
        let n = es.len() as int;
        assert(u[n].0 == name);
        let f = find(u, name);
        if 0 <= f < n {
            assert(u[f] == es[f]);
        }
    }
}

/// Putting `name` leaves every other name as it was.
pub proof fn lemma_child_put_other(es: Seq<(Seq<char>, Tree)>, name: Seq<char>, v: Tree, other: Seq<char>)
    requires
        other != name,
    ensures
        child(Tree::Level(put(es, name, v)), other) == child(Tree::Level(es), other),
{
    let u = put(es, name, v);
    lemma_find(es, name);
    lemma_find(es, other);
    lemma_find(u, other);
    if find(es, name) >= 0 {
        let i = find(es, name);
        assert forall|j: int| 0 <= j < es.len() implies u[j].0 == es[j].0 by {
            if j == i {
                assert(u[j].0 == name);
            }
        }
        lemma_find_same_names(u, es, other);
        let f = find(es, other);
        if f >= 0 {
            assert(f != i);
            assert(u[f] == es[f]);
        }
    } else {
        let n = es.len() as int;
        let f = find(u, other);
        if 0 <= f < n {
            assert(u[f] == es[f]);
            lemma_find(es, other);
            if find(es, other) != f {
                if find(es, other) == -1 {
                    assert(es[f].0 != other);
                } else if find(es, other) < f {
                    assert(u[find(es, other)] == es[find(es, other)]);
                } else {
                    assert(es[f].0 != other);
                }
            }
        } else if f == n {
            assert(u[n].0 == name);
        } else {
            let g = find(es, other);
            if g >= 0 {
                assert(u[g] == es[g]);
            }
        }
    }
}

/// A path of no levels stands at what it is asked of.
proof fn lemma_at_empty_level(path: Seq<Seq<char>>)
    requires
        path.len() > 0,
    ensures
        at(Tree::Level(Seq::empty()), path) is None,
{
    lemma_find(Seq::<(Seq<char>, Tree)>::empty(), path[0]);
}

/// Whether `a` and `b` part at some level both have.
pub open spec fn diverge(a: Seq<Seq<char>>, b: Seq<Seq<char>>) -> bool {
    exists|k: int| 0 <= k < a.len() && k < b.len() && a[k] != b[k]
}

proof fn lemma_set_reads_back(t: Tree, path: Seq<Seq<char>>, d: int, v: Tree)
    requires
        0 <= d <= path.len(),
        set_at(t, path, d, v) is Ok,
    ensures
        at(set_at(t, path, d, v)->Ok_0, path.skip(d)) == Some(v),
    decreases path.len() - d,
{
    let rest = path.skip(d);
    if d < path.len() {
        let es = t->Level_0;
        assert(rest[0] == path[d]);
        if d == path.len() - 1 {
            lemma_child_put_same(es, path[d], v);
            assert(rest.drop_first() =~= Seq::<Seq<char>>::empty());
            assert(at(v, rest.drop_first()) == Some(v));
        } else {
            let c = match child(t, path[d]) {
                Some(c) => c,
                None => Tree::Level(Seq::empty()),
            };
            lemma_set_reads_back(c, path, d + 1, v);
            let c2 = set_at(c, path, d + 1, v)->Ok_0;
            lemma_child_put_same(es, path[d], c2);
            assert(rest.drop_first() =~= path.skip(d + 1));
        }
    } else {
        assert(rest =~= Seq::<Seq<char>>::empty());
    }
}

proof fn lemma_set_leaves_the_rest(t: Tree, path: Seq<Seq<char>>, d: int, v: Tree, q: Seq<Seq<char>>)
    requires
        0 <= d <= path.len(),
        set_at(t, path, d, v) is Ok,
        diverge(q, path.skip(d)),
    ensures
        at(set_at(t, path, d, v)->Ok_0, q) == at(t, q),
    decreases path.len() - d,
{
    let rest = path.skip(d);
    let k = choose|k: int| 0 <= k < q.len() && k < rest.len() && q[k] != rest[k];
    assert(rest[0] == path[d]);
    let es = t->Level_0;
    if q[0] != path[d] {
        if d == path.len() - 1 {
            lemma_child_put_other(es, path[d], v, q[0]);
        } else {
            let c = match child(t, path[d]) {
                Some(c) => c,
                None => Tree::Level(Seq::empty()),
            };
            let c2 = set_at(c, path, d + 1, v)->Ok_0;
            lemma_child_put_other(es, path[d], c2, q[0]);
        }
    } else {
        assert(k > 0);
        assert(d < path.len() - 1);
        let c = match child(t, path[d]) {
            Some(c) => c,
            None => Tree::Level(Seq::empty()),
        };
        let c2 = set_at(c, path, d + 1, v)->Ok_0;
        lemma_child_put_same(es, path[d], c2);
        assert(path.skip(d + 1) =~= rest.drop_first());
        assert(q.drop_first()[k - 1] != rest.drop_first()[k - 1]);
        lemma_set_leaves_the_rest(c, path, d + 1, v, q.drop_first());
        if child(t, path[d]) is None {
            lemma_at_empty_level(q.drop_first());
        }
    }
}

/// What a write leaves: the value at its path, and every path that parts
/// from it where it was.
pub proof fn a_write_reads_back_and_leaves_the_rest(t: Tree, path: Seq<Seq<char>>, v: Tree, q: Seq<Seq<char>>)
    requires
        set_at(t, path, 0, v) is Ok,
    ensures
        at(set_at(t, path, 0, v)->Ok_0, path) == Some(v),
        diverge(q, path) ==> at(set_at(t, path, 0, v)->Ok_0, q) == at(t, q),
{
    lemma_set_reads_back(t, path, 0, v);
    assert(path.skip(0) =~= path);
    if diverge(q, path) {
        lemma_set_leaves_the_rest(t, path, 0, v, q);
    }
}

/// Whether what was found is a value.
pub open spec fn is_leaf(o: Option<Tree>) -> bool {
    o matches Some(Tree::Leaf(_))
}

/// Whether a value sits at the first `k` levels of `path` under `t`, for
/// some `k` from `d` up to, not including, the whole path.
pub open spec fn leaf_on_the_way(t: Tree, path: Seq<Seq<char>>, d: int) -> bool {
    exists|k: int| d <= k < path.len() && is_leaf(#[trigger] at(t, path.subrange(d, k)))
}

/// Whether writing `v` at `path` would put a value over a level holding
/// values.
pub open spec fn over_a_branch(t: Tree, path: Seq<Seq<char>>, d: int, v: Tree) -> bool {
    !(v is Level) && (match at(t, path.subrange(d, path.len() as int)) {
        Some(c) => has_children(c),
        None => false,
    })
}

proof fn lemma_at_step(t: Tree, path: Seq<Seq<char>>, d: int, k: int)
    requires
        0 <= d < k <= path.len(),
    ensures
        at(t, path.subrange(d, k)) == match child(t, path[d]) {
            Some(c) => at(c, path.subrange(d + 1, k)),
            None => None,
        },
{
    let s = path.subrange(d, k);
    assert(s[0] == path[d]);
    assert(s.drop_first() =~= path.subrange(d + 1, k));
}

proof fn lemma_set_refusal(t: Tree, path: Seq<Seq<char>>, d: int, v: Tree)
    requires
        0 <= d < path.len(),
    ensures
        forall|k: int| d <= k < path.len() && is_leaf(#[trigger] at(t, path.subrange(d, k)))
            ==> set_at(t, path, d, v) == Err::<Tree, OccupiedView>(OccupiedView::Value(path.take(k))),
        !leaf_on_the_way(t, path, d) && over_a_branch(t, path, d, v)
            ==> set_at(t, path, d, v) == Err::<Tree, OccupiedView>(OccupiedView::Branch(path)),
        !leaf_on_the_way(t, path, d) && !over_a_branch(t, path, d, v) ==> set_at(t, path, d, v) is Ok,
    decreases path.len() - d,
{
    assert(path.subrange(d, d) =~= Seq::<Seq<char>>::empty());
    assert(at(t, path.subrange(d, d)) == Some(t));
    match t {
        Tree::Leaf(_) => {
            assert forall|k: int| d <= k < path.len() && is_leaf(#[trigger] at(t, path.subrange(d, k)))
                implies k == d by {
                if k > d {
                    lemma_at_step(t, path, d, k);
                }
            }
        },
        Tree::Level(es) => {
            if d == path.len() - 1 {
                lemma_at_step(t, path, d, path.len() as int);
                assert(path.subrange(d + 1, path.len() as int) =~= Seq::<Seq<char>>::empty());
                match child(t, path[d]) {
                    Some(c) => {
                        assert(at(c, path.subrange(d + 1, path.len() as int)) == Some(c));
                    },
                    None => {},
                }
            } else {
                let c = match child(t, path[d]) {
                    Some(c) => c,
                    None => Tree::Level(Seq::empty()),
                };
                lemma_set_refusal(c, path, d + 1, v);
                assert forall|k: int| d < k <= path.len() implies #[trigger] at(t, path.subrange(d, k)) == (
                    if child(t, path[d]) is Some { at(c, path.subrange(d + 1, k)) } else { None::<Tree> }
                ) by {
                    lemma_at_step(t, path, d, k);
                }
                if child(t, path[d]) is None {
                    assert forall|k: int| d + 1 <= k <= path.len() implies !is_leaf(#[trigger] at(c, path.subrange(d + 1, k))) by {
                        if k == d + 1 {
                            assert(path.subrange(d + 1, k) =~= Seq::<Seq<char>>::empty());
                        } else {
                            lemma_at_empty_level(path.subrange(d + 1, k));
                        }
                    }
                    lemma_at_empty_level(path.subrange(d + 1, path.len() as int));
                    assert(!leaf_on_the_way(c, path, d + 1));
                    assert(!over_a_branch(c, path, d + 1, v));
                } else {
                    if leaf_on_the_way(c, path, d + 1) {
                        let k = choose|k: int| d + 1 <= k < path.len() && is_leaf(#[trigger] at(c, path.subrange(d + 1, k)));
                        assert(at(t, path.subrange(d, k)) == at(c, path.subrange(d + 1, k)));
                    }
                    if leaf_on_the_way(t, path, d) {
                        let k = choose|k: int| d <= k < path.len() && is_leaf(#[trigger] at(t, path.subrange(d, k)));
                        assert(k > d);
                        assert(at(t, path.subrange(d, k)) == at(c, path.subrange(d + 1, k)));
                    }
                }
            }
        },
    }
}

/// When a write is refused, and why: a value on the way refuses it, naming
/// the level the value sits at; with none on the way, a value that would
/// replace a level holding values refuses it, naming the path; and nothing
/// else does.
pub proof fn a_write_is_refused_only_by_what_is_in_its_way(t: Tree, path: Seq<Seq<char>>, v: Tree)
    requires
        path.len() > 0,
    ensures
        forall|k: int| 0 <= k < path.len() && is_leaf(#[trigger] at(t, path.take(k)))
            ==> set_at(t, path, 0, v) == Err::<Tree, OccupiedView>(OccupiedView::Value(path.take(k))),
        !leaf_on_the_way(t, path, 0) && over_a_branch(t, path, 0, v)
            ==> set_at(t, path, 0, v) == Err::<Tree, OccupiedView>(OccupiedView::Branch(path)),
        !leaf_on_the_way(t, path, 0) && !over_a_branch(t, path, 0, v) ==> set_at(t, path, 0, v) is Ok,
{
    lemma_set_refusal(t, path, 0, v);
    assert forall|k: int| 0 <= k < path.len() implies path.take(k) == #[trigger] path.subrange(0, k) by {
        assert(path.take(k) =~= path.subrange(0, k));
    }
}

/// What was taken out, as what it held.
pub open spec fn taken_tree(o: Option<Node>) -> Option<Tree> {
    match o {
        Some(n) => Some(n.tree()),
        None => None,
    }
}

/// The value at `path` taken out of `t`, which stands at the first `d`
/// levels of `path`, with every level above it that this emptied; and what
/// was taken, if anything stood there.
pub open spec fn delete_at(t: Tree, path: Seq<Seq<char>>, d: int) -> (Tree, Option<Tree>)
    decreases path.len() - d,
{
    if d < 0 || d >= path.len() {
        (t, None)
    } else {
        match t {
            Tree::Leaf(_) => (t, None),
            Tree::Level(es) => {
                let i = find(es, path[d]);
                if i < 0 {
                    (t, None)
                } else if d == path.len() - 1 {
                    (Tree::Level(es.remove(i)), Some(es[i].1))
                } else {
                    let below = delete_at(es[i].1, path, d + 1);
                    if below.1 is None {
                        (t, None)
                    } else if below.0 == Tree::Level(Seq::empty()) {
                        (Tree::Level(es.remove(i)), below.1)
                    } else {
                        (Tree::Level(es.update(i, (path[d], below.0))), below.1)
                    }
                }
            },
        }
    }
}

proof fn lemma_take_entry(es: Seq<(String, Node)>, i: int)
    requires
        0 <= i < es.len(),
    ensures
        entry_trees(es.remove(i)) == entry_trees(es).remove(i),
        distinct_names(es) ==> distinct_names(es.remove(i)),
{
    assert(entry_trees(es.remove(i)) =~= entry_trees(es).remove(i));
    if distinct_names(es) {
        let t = es.remove(i);
        assert forall|a: int, b: int| 0 <= a < b < t.len() implies t[a].0@ != t[b].0@ by {
            let a0 = if a < i { a } else { a + 1 };
            let b0 = if b < i { b } else { b + 1 };
            assert(t[a] == es[a0]);
            assert(t[b] == es[b0]);
        }
    }
}

/// The value at `path` taken out of `n`, which stands at the first `d` levels
/// of `path`, with every level above it that this emptied.
fn delete_in(n: Node, path: &StorePath, d: usize) -> (r: (Node, Option<Node>))
    requires
        d <= path@.len(),
    ensures
        (r.0.tree(), taken_tree(r.1)) == delete_at(n.tree(), path@, d as int),
    decreases path@.len() - d,
{
    if d >= path.len() {
        return (n, None);
    }
    match n {
        Node::Leaf(b) => {
            proof {
                lemma_leaf_tree(b);
            }
            (Node::Leaf(b), None)
        },
        Node::Level(f) => {
            proof {
                use_type_invariant(&f);
                lemma_level_tree(f);
            }
            let Fields { entries } = f;
            let mut es = entries;
            let ghost was = es@;
            let name = path.level(d);
            let found = find_in(&es, name.as_str());
            proof {
                lemma_entry_trees(was);
                lemma_find(entry_trees(was), name@);
            }
            match found {
                None => (level_of(es), None),
                Some(i) => {
                    if d + 1 == path.len() {
                        let (_, gone) = es.remove(i);
                        proof {
                            lemma_take_entry(was, i as int);
                        }
                        (level_of(es), Some(gone))
                    } else {
                        let (k, c) = es.remove(i);
                        let ghost ct = c.tree();
                        let (c2, taken) = delete_in(c, path, d + 1);
                        match taken {
                            None => {
                                es.insert(i, (k, c2));
                                proof {
                                    assert(es@ =~= was.update(i as int, (k, c2)));
                                    assert(entry_trees(es@) =~= entry_trees(was));
                                    assert forall|a: int, b: int| 0 <= a < b < es@.len() implies es@[a].0@ != es@[b].0@ by {
                                        assert(es@[a].0@ == was[a].0@);
                                        assert(es@[b].0@ == was[b].0@);
                                    }
                                }
                                (level_of(es), None)
                            },
                            Some(gone) => {
                                let emptied = c2.is_level() && !c2.has_children();
                                if emptied {
                                    proof {
                                        lemma_take_entry(was, i as int);
                                        assert(es@ =~= was.remove(i as int));
                                        match c2.tree() {
                                            Tree::Level(ces) => {
                                                assert(ces =~= Seq::<(Seq<char>, Tree)>::empty());
                                            },
                                            Tree::Leaf(_) => {},
                                        }
                                    }
                                    (level_of(es), Some(gone))
                                } else {
                                    proof {
                                        lemma_put_found(was, i as int, k, c2);
                                        assert(c2.tree() != Tree::Level(Seq::empty()));
                                    }
                                    es.insert(i, (k, c2));
                                    proof {
                                        assert(es@ =~= was.update(i as int, (k, c2)));
                                    }
                                    (level_of(es), Some(gone))
                                }
                            },
                        }
                    }
                },
            }
        },
    }
}

/// Takes out the value at `path` in the document rooted at `root`, and every
/// level above it that this left holding nothing, and hands back what stood
/// there. A level that already held nothing is not one this emptied, and is
/// left where it is.
pub fn generic_delete(root: &mut Node, path: &StorePath) -> (r: Option<Node>)
    ensures
        final(root).tree() == delete_at(old(root).tree(), path@, 0).0,
        taken_tree(r) == delete_at(old(root).tree(), path@, 0).1,
        wf(old(root).tree()) ==> wf(final(root).tree()),
{
    proof {
        if wf(root.tree()) {
            lemma_delete_keeps_wf(root.tree(), path@, 0);
        }
    }
    let mut held = Node::empty_level();
    std::mem::swap(&mut held, root);
    let (m, taken) = delete_in(held, path, 0);
    *root = m;
    taken
}

/// `t`, which stands at the first `d` levels of `path`, with whatever stands
/// at `path` gone and nothing above it touched; the whole of it emptied where
/// `path` is where `t` stands.
pub open spec fn delete_subtree_at(t: Tree, path: Seq<Seq<char>>, d: int) -> Tree
    decreases path.len() - d,
{
    if d < 0 || d >= path.len() {
        Tree::Level(Seq::empty())
    } else {
        match t {
            Tree::Leaf(_) => t,
            Tree::Level(es) => {
                let i = find(es, path[d]);
                if i < 0 {
                    t
                } else if d == path.len() - 1 {
                    Tree::Level(es.remove(i))
                } else {
                    Tree::Level(es.update(i, (path[d], delete_subtree_at(es[i].1, path, d + 1))))
                }
            },
        }
    }
}

fn delete_subtree_in(n: Node, path: &StorePath, d: usize) -> (r: Node)
    requires
        d <= path@.len(),
    ensures
        r.tree() == delete_subtree_at(n.tree(), path@, d as int),
    decreases path@.len() - d,
{
    if d >= path.len() {
        return Node::empty_level();
    }
    match n {
        Node::Leaf(b) => {
            proof {
                lemma_leaf_tree(b);
            }
            Node::Leaf(b)
        },
        Node::Level(f) => {
            proof {
                use_type_invariant(&f);
                lemma_level_tree(f);
            }
            let Fields { entries } = f;
            let mut es = entries;
            let ghost was = es@;
            let name = path.level(d);
            let found = find_in(&es, name.as_str());
            proof {
                lemma_entry_trees(was);
                lemma_find(entry_trees(was), name@);
            }
            match found {
                None => level_of(es),
                Some(i) => {
                    if d + 1 == path.len() {
                        let _ = es.remove(i);
                        proof {
                            lemma_take_entry(was, i as int);
                        }
                        level_of(es)
                    } else {
                        let (k, c) = es.remove(i);
                        let c2 = delete_subtree_in(c, path, d + 1);
                        proof {
                            lemma_put_found(was, i as int, k, c2);
                        }
                        es.insert(i, (k, c2));
                        proof {
                            assert(es@ =~= was.update(i as int, (k, c2)));
                        }
                        level_of(es)
                    }
                },
            }
        },
    }
}

/// Takes out everything at and under `path` in the document rooted at
/// `root`, leaving the levels above it as they are; at the root, empties the
/// document.
pub fn generic_delete_subtree(root: &mut Node, path: &StorePath)
    ensures
        final(root).tree() == delete_subtree_at(old(root).tree(), path@, 0),
        wf(old(root).tree()) ==> wf(final(root).tree()),
{
    proof {
        if wf(root.tree()) {
            lemma_subtree_keeps_wf(root.tree(), path@, 0);
        }
    }
    let mut held = Node::empty_level();
    std::mem::swap(&mut held, root);
    *root = delete_subtree_in(held, path, 0);
}

impl Node {
    /// The same node, held separately.
    pub fn copied(&self) -> (r: Node)
        ensures
            r.tree() == self.tree(),
        decreases self,
    {
        match self {
            Node::Leaf(b) => {
                proof {
                    lemma_leaf_tree(*b);
                }
                let mut bytes: Vec<u8> = Vec::new();
                let mut i: usize = 0;
                while i < b.len()
                    invariant
                        i <= b@.len(),
                        bytes@ == b@.subrange(0, i as int),
                    decreases b@.len() - i,
                {
                    bytes.push(b[i]);
                    i = i + 1;
                    assert(bytes@ =~= b@.subrange(0, i as int));
                }
                assert(b@.subrange(0, b@.len() as int) =~= b@);
                Node::Leaf(bytes)
            },
            Node::Level(f) => {
                proof {
                    use_type_invariant(f);
                    lemma_level_tree(*f);
                }
                let mut es: Vec<(String, Node)> = Vec::new();
                let mut i: usize = 0;
                while i < f.entries.len()
                    invariant
                        *self == Node::Level(*f),
                        i <= f.entries@.len(),
                        es@.len() == i,
                        forall|j: int| 0 <= j < i ==> #[trigger] es@[j].0@ == f.entries@[j].0@ && es@[j].1.tree() == f.entries@[j].1.tree(),
                    decreases f.entries@.len() - i,
                {
                    proof {
                        assert(*self == Node::Level(*f));
                        assert(decreases_to!(*self => self->Level_0));
                        assert(self->Level_0 == *f);
                        assert(decreases_to!(*f => f.entries));
                        assert(decreases_to!(f.entries => f.entries@));
                        assert(decreases_to!(f.entries@ => f.entries@[i as int]));
                        assert(decreases_to!(f.entries@[i as int] => f.entries@[i as int].1));
                    }
                    let c = f.entries[i].1.copied();
                    es.push((f.entries[i].0.clone(), c));
                    i = i + 1;
                }
                proof {
                    assert(entry_trees(es@) =~= entry_trees(f.entries@));
                    assert forall|a: int, b: int| 0 <= a < b < es@.len() implies es@[a].0@ != es@[b].0@ by {
                        assert(es@[a].0@ == f.entries@[a].0@);
                        assert(es@[b].0@ == f.entries@[b].0@);
                    }
                }
                level_of(es)
            },
        }
    }

    /// Whether the two nodes hold the same: the same bytes, or the same
    /// names in the same order, each holding the same.
    pub fn same_tree(&self, other: &Node) -> (r: bool)
        ensures
            r == (self.tree() == other.tree()),
        decreases self,
    {
        match (self, other) {
            (Node::Leaf(a), Node::Leaf(b)) => {
                proof {
                    lemma_leaf_tree(*a);
                    lemma_leaf_tree(*b);
                }
                crate::buffer::same_bytes(a, b)
            },
            (Node::Level(f), Node::Level(g)) => {
                proof {
                    lemma_level_tree(*f);
                    lemma_level_tree(*g);
                    lemma_entry_trees(f.entries@);
                    lemma_entry_trees(g.entries@);
                }
                if f.entries.len() != g.entries.len() {
                    return false;
                }
                let mut i: usize = 0;
                while i < f.entries.len()
                    invariant
                        *self == Node::Level(*f),
                        *other == Node::Level(*g),
                        f.entries@.len() == g.entries@.len(),
                        i <= f.entries@.len(),
                        forall|j: int| 0 <= j < i ==> #[trigger] entry_trees(f.entries@)[j] == entry_trees(g.entries@)[j],
                    decreases f.entries@.len() - i,
                {
                    proof {
                        lemma_entry_trees(f.entries@);
                        lemma_entry_trees(g.entries@);
                        assert(decreases_to!(*self => self->Level_0));
                        assert(self->Level_0 == *f);
                        assert(decreases_to!(*f => f.entries));
                        assert(decreases_to!(f.entries => f.entries@));
                        assert(decreases_to!(f.entries@ => f.entries@[i as int]));
                        assert(decreases_to!(f.entries@[i as int] => f.entries@[i as int].1));
                    }
                    if !crate::format::same_text(f.entries[i].0.as_str(), g.entries[i].0.as_str()) {
                        proof {
                            lemma_level_tree(*f);
                            lemma_level_tree(*g);
                            assert(entry_trees(f.entries@)[i as int] != entry_trees(g.entries@)[i as int]);
                            assert(self.tree()->Level_0[i as int] != other.tree()->Level_0[i as int]);
                        }
                        return false;
                    }
                    if !f.entries[i].1.same_tree(&g.entries[i].1) {
                        proof {
                            lemma_level_tree(*f);
                            lemma_level_tree(*g);
                            assert(entry_trees(f.entries@)[i as int] != entry_trees(g.entries@)[i as int]);
                            assert(self.tree()->Level_0[i as int] != other.tree()->Level_0[i as int]);
                        }
                        return false;
                    }
                    i = i + 1;
                }
                assert(entry_trees(f.entries@) =~= entry_trees(g.entries@));
                true
            },
            (Node::Leaf(a), Node::Level(g)) => {
                proof {
                    lemma_leaf_tree(*a);
                    lemma_level_tree(*g);
                }
                false
            },
            (Node::Level(f), Node::Leaf(b)) => {
                proof {
                    lemma_leaf_tree(*b);
                    lemma_level_tree(*f);
                }
                false
            },
        }
    }
}

/// What a scan under `prefix` finds: each child of what stands there, in the
/// order the file holds them, under its whole path.
pub open spec fn scanned(t: Tree, prefix: Seq<Seq<char>>) -> Seq<(Seq<Seq<char>>, Tree)> {
    match at(t, prefix) {
        Some(Tree::Level(es)) => Seq::new(es.len(), |i: int| (prefix.push(es[i].0), es[i].1)),
        _ => Seq::empty(),
    }
}

/// Paths and what stands at each.
pub open spec fn found_trees(s: Seq<(StorePath, Node)>) -> Seq<(Seq<Seq<char>>, Tree)> {
    s.map_values(|e: (StorePath, Node)| (e.0@, e.1.tree()))
}

/// Every child of what stands at `prefix`, under its whole path, in the
/// order the file holds them.
pub fn generic_scan(root: &Node, prefix: &StorePath) -> (r: Vec<(StorePath, Node)>)
    ensures
        found_trees(r@) == scanned(root.tree(), prefix@),
{
    let mut found: Vec<(StorePath, Node)> = Vec::new();
    match generic_get(root, prefix) {
        Some(Node::Level(f)) => {
            proof {
                lemma_level_tree(*f);
            }
            let mut i: usize = 0;
            while i < f.entries.len()
                invariant
                    i <= f.entries@.len(),
                    found@.len() == i,
                    forall|j: int| 0 <= j < i ==> #[trigger] found@[j].0@ == prefix@.push(f.entries@[j].0@)
                        && found@[j].1.tree() == f.entries@[j].1.tree(),
                decreases f.entries@.len() - i,
            {
                let at = prefix.join(&StorePath::segment(f.entries[i].0.as_str()));
                proof {
                    assert(at@ =~= prefix@.push(f.entries@[i as int].0@));
                }
                found.push((at, f.entries[i].1.copied()));
                i = i + 1;
            }
            proof {
                lemma_entry_trees(f.entries@);
                assert(found_trees(found@) =~= scanned(root.tree(), prefix@));
            }
        },
        Some(Node::Leaf(b)) => {
            proof {
                lemma_leaf_tree(*b);
                assert(found_trees(found@) =~= scanned(root.tree(), prefix@));
            }
        },
        None => {
            assert(found_trees(found@) =~= scanned(root.tree(), prefix@));
        },
    }
    found
}

/// The paths one level under `prefix`, without reading what is at them.
pub fn generic_scan_keys(root: &Node, prefix: &StorePath) -> (r: Vec<StorePath>)
    ensures
        r@.map_values(|p: StorePath| p@) == scanned(root.tree(), prefix@).map_values(|e: (Seq<Seq<char>>, Tree)| e.0),
{
    let mut found: Vec<StorePath> = Vec::new();
    match generic_get(root, prefix) {
        Some(Node::Level(f)) => {
            proof {
                lemma_level_tree(*f);
            }
            let mut i: usize = 0;
            while i < f.entries.len()
                invariant
                    i <= f.entries@.len(),
                    found@.len() == i,
                    forall|j: int| 0 <= j < i ==> #[trigger] found@[j]@ == prefix@.push(f.entries@[j].0@),
                decreases f.entries@.len() - i,
            {
                let at = prefix.join(&StorePath::segment(f.entries[i].0.as_str()));
                proof {
                    assert(at@ =~= prefix@.push(f.entries@[i as int].0@));
                }
                found.push(at);
                i = i + 1;
            }
            proof {
                lemma_entry_trees(f.entries@);
                assert(found@.map_values(|p: StorePath| p@) =~= scanned(root.tree(), prefix@).map_values(|e: (Seq<Seq<char>>, Tree)| e.0));
            }
        },
        Some(Node::Leaf(b)) => {
            proof {
                lemma_leaf_tree(*b);
                assert(found@.map_values(|p: StorePath| p@) =~= scanned(root.tree(), prefix@).map_values(|e: (Seq<Seq<char>>, Tree)| e.0));
            }
        },
        None => {
            assert(found@.map_values(|p: StorePath| p@) =~= scanned(root.tree(), prefix@).map_values(|e: (Seq<Seq<char>>, Tree)| e.0));
        },
    }
    found
}

/// Whether no two children of a level share a name.
pub open spec fn names_once(es: Seq<(Seq<char>, Tree)>) -> bool {
    forall|a: int, b: int| 0 <= a < b < es.len() ==> es[a].0 != es[b].0
}

/// Whether every level of `t` names each child once.
pub open spec fn wf(t: Tree) -> bool {
    forall|path: Seq<Seq<char>>| level_names_once(#[trigger] at(t, path))
}

/// Whether what was found, if it is a level, names each child once.
pub open spec fn level_names_once(o: Option<Tree>) -> bool {
    match o {
        Some(Tree::Level(es)) => names_once(es),
        _ => true,
    }
}

proof fn lemma_level_wf(es: Seq<(Seq<char>, Tree)>)
    ensures
        wf(Tree::Level(es)) <==> (names_once(es) && forall|a: int| 0 <= a < es.len() ==> wf(#[trigger] es[a].1)),
{
    let t = Tree::Level(es);
    assert(at(t, Seq::<Seq<char>>::empty()) == Some(t));
    if wf(t) {
        assert(names_once(es));
        assert forall|a: int| 0 <= a < es.len() implies wf(#[trigger] es[a].1) by {
            lemma_find(es, es[a].0);
            assert(find(es, es[a].0) == a) by {
                let f = find(es, es[a].0);
                if f < a {
                    assert(es[f].0 == es[a].0);
                }
            }
            assert forall|q: Seq<Seq<char>>| level_names_once(#[trigger] at(es[a].1, q)) by {
                let p = seq![es[a].0] + q;
                assert(p[0] == es[a].0);
                assert(p.drop_first() =~= q);
                assert(at(t, p) == at(es[a].1, q));
            }
        }
    }
    if names_once(es) && forall|a: int| 0 <= a < es.len() ==> wf(#[trigger] es[a].1) {
        assert forall|p: Seq<Seq<char>>| level_names_once(#[trigger] at(t, p)) by {
            if p.len() > 0 {
                lemma_find(es, p[0]);
                let f = find(es, p[0]);
                if f >= 0 {
                    assert(at(t, p) == at(es[f].1, p.drop_first()));
                    assert(wf(es[f].1));
                }
            }
        }
    }
}

proof fn lemma_leaf_wf(b: Seq<u8>)
    ensures
        wf(Tree::Leaf(b)),
{
    assert forall|p: Seq<Seq<char>>| level_names_once(#[trigger] at(Tree::Leaf(b), p)) by {
        if p.len() > 0 {
            assert(child(Tree::Leaf(b), p[0]) is None);
        }
    }
}

proof fn lemma_find_update(es: Seq<(Seq<char>, Tree)>, i: int, v: Tree, name: Seq<char>)
    requires
        0 <= i < es.len(),
        es[i].0 == name,
    ensures
        find(es.update(i, (name, v)), name) == find(es, name),
{
    let u = es.update(i, (name, v));
    assert forall|j: int| 0 <= j < es.len() implies u[j].0 == es[j].0 by {}
    lemma_find_same_names(u, es, name);
}

proof fn lemma_find_gone(es: Seq<(Seq<char>, Tree)>, i: int, name: Seq<char>)
    requires
        0 <= i < es.len(),
        es[i].0 == name,
        forall|a: int, b: int| 0 <= a < b < es.len() ==> es[a].0 != es[b].0,
    ensures
        find(es.remove(i), name) == -1,
{
    let u = es.remove(i);
    lemma_find(u, name);
    let f = find(u, name);
    if f >= 0 {
        if f < i {
            assert(u[f] == es[f]);
        } else {
            assert(u[f] == es[f + 1]);
        }
    }
}

proof fn lemma_delete_takes_what_stood(t: Tree, path: Seq<Seq<char>>, d: int)
    requires
        0 <= d < path.len(),
    ensures
        delete_at(t, path, d).1 == at(t, path.skip(d)),
    decreases path.len() - d,
{
    let rest = path.skip(d);
    assert(rest[0] == path[d]);
    assert(rest.drop_first() =~= path.skip(d + 1));
    match t {
        Tree::Leaf(_) => {},
        Tree::Level(es) => {
            lemma_find(es, path[d]);
            let i = find(es, path[d]);
            if i >= 0 {
                if d == path.len() - 1 {
                    assert(path.skip(d + 1) =~= Seq::<Seq<char>>::empty());
                    assert(at(es[i].1, path.skip(d + 1)) == Some(es[i].1));
                } else {
                    lemma_delete_takes_what_stood(es[i].1, path, d + 1);
                }
            }
        },
    }
}

proof fn lemma_delete_leaves_nothing(t: Tree, path: Seq<Seq<char>>, d: int)
    requires
        0 <= d < path.len(),
        wf(t),
    ensures
        at(delete_at(t, path, d).0, path.skip(d)) is None,
    decreases path.len() - d,
{
    let rest = path.skip(d);
    assert(rest[0] == path[d]);
    assert(rest.drop_first() =~= path.skip(d + 1));
    match t {
        Tree::Leaf(_) => {},
        Tree::Level(es) => {
                lemma_level_wf(es);
            lemma_find(es, path[d]);
            let i = find(es, path[d]);
            if i >= 0 {
                if d == path.len() - 1 {
                    lemma_find_gone(es, i, path[d]);
                } else {
                    let below = delete_at(es[i].1, path, d + 1);
                    lemma_delete_takes_what_stood(es[i].1, path, d + 1);
                    if below.1 is None {
                    } else if below.0 == Tree::Level(Seq::empty()) {
                        lemma_find_gone(es, i, path[d]);
                    } else {
                        lemma_delete_leaves_nothing(es[i].1, path, d + 1);
                        lemma_find_update(es, i, below.0, path[d]);
                    }
                }
            }
        },
    }
}

/// What a delete takes out is what stood at its path; in a document that
/// names each child once, nothing stands there afterwards.
pub proof fn a_delete_takes_what_stood_there(t: Tree, path: Seq<Seq<char>>)
    requires
        path.len() > 0,
    ensures
        delete_at(t, path, 0).1 == at(t, path),
        wf(t) ==> at(delete_at(t, path, 0).0, path) is None,
{
    lemma_delete_takes_what_stood(t, path, 0);
    assert(path.skip(0) =~= path);
    if wf(t) {
        lemma_delete_leaves_nothing(t, path, 0);
    }
}

/// Whether every level that stands strictly between the first `d` levels of
/// `path` and the whole of it holds something.
pub open spec fn no_empty_level_on_the_way(t: Tree, path: Seq<Seq<char>>, d: int) -> bool {
    forall|k: int| d < k < path.len() ==> #[trigger] at(t, path.subrange(d, k)) != Some(Tree::Level(Seq::empty()))
}

proof fn lemma_round_trip(t: Tree, path: Seq<Seq<char>>, d: int, v: Tree)
    requires
        0 <= d < path.len(),
        at(t, path.skip(d)) is None,
        set_at(t, path, d, v) is Ok,
        no_empty_level_on_the_way(t, path, d),
    ensures
        delete_at(set_at(t, path, d, v)->Ok_0, path, d) == (t, Some(v)),
    decreases path.len() - d,
{
    let rest = path.skip(d);
    assert(rest[0] == path[d]);
    assert(rest.drop_first() =~= path.skip(d + 1));
    let es = t->Level_0;
    lemma_find(es, path[d]);
    if d == path.len() - 1 {
        assert(find(es, path[d]) == -1) by {
            if find(es, path[d]) >= 0 {
                assert(path.skip(d + 1) =~= Seq::<Seq<char>>::empty());
                assert(at(es[find(es, path[d])].1, path.skip(d + 1)) is Some);
            }
        }
        let u = es.push((path[d], v));
        lemma_child_put_same(es, path[d], v);
        lemma_find(u, path[d]);
        assert(find(u, path[d]) == es.len()) by {
            let f = find(u, path[d]);
            if 0 <= f < es.len() {
                assert(u[f] == es[f]);
            }
        }
        assert(u.remove(es.len() as int) =~= es);
    } else {
        let found = find(es, path[d]);
        let c = if found >= 0 { es[found].1 } else { Tree::Level(Seq::empty()) };
        let c2 = set_at(c, path, d + 1, v)->Ok_0;
        assert(set_at(c, path, d + 1, v) is Ok);
        if found >= 0 {
            lemma_at_step(t, path, d, d + 1);
            assert(path.subrange(d + 1, d + 1) =~= Seq::<Seq<char>>::empty());
            assert(at(t, path.subrange(d, d + 1)) == Some(c));
            assert forall|k: int| d + 1 < k < path.len() implies #[trigger] at(c, path.subrange(d + 1, k)) != Some(Tree::Level(Seq::empty())) by {
                lemma_at_step(t, path, d, k);
            }
            lemma_round_trip(c, path, d + 1, v);
            let u = es.update(found, (path[d], c2));
            lemma_find_update(es, found, c2, path[d]);
            assert(u[found].1 == c2);
            assert(c != Tree::Level(Seq::empty()));
            assert(u.update(found, (path[d], c)) =~= es);
        } else {
            let empty = Tree::Level(Seq::empty());
            assert(at(empty, path.skip(d + 1)) is None) by {
                lemma_at_empty_level(path.skip(d + 1));
            }
            assert forall|k: int| d + 1 < k < path.len() implies #[trigger] at(empty, path.subrange(d + 1, k)) != Some(Tree::Level(Seq::empty())) by {
                lemma_at_empty_level(path.subrange(d + 1, k));
            }
            lemma_round_trip(empty, path, d + 1, v);
            let u = es.push((path[d], c2));
            assert(find(u, path[d]) == es.len()) by {
                lemma_find(u, path[d]);
                let f = find(u, path[d]);
                if 0 <= f < es.len() {
                    assert(u[f] == es[f]);
                }
                assert(u[es.len() as int].0 == path[d]);
            }
            assert(u.remove(es.len() as int) =~= es);
        }
    }
}

/// Writing a value where nothing stood and then deleting it leaves the
/// document as it was, so long as no level on the way held nothing before:
/// the levels the write made are the levels the delete takes away.
pub proof fn a_write_then_a_delete_is_a_round_trip(t: Tree, path: Seq<Seq<char>>, v: Tree)
    requires
        path.len() > 0,
        at(t, path) is None,
        set_at(t, path, 0, v) is Ok,
        no_empty_level_on_the_way(t, path, 0),
    ensures
        delete_at(set_at(t, path, 0, v)->Ok_0, path, 0) == (t, Some(v)),
{
    assert(path.skip(0) =~= path);
    lemma_round_trip(t, path, 0, v);
}

proof fn lemma_subtree_gone(t: Tree, path: Seq<Seq<char>>, d: int)
    requires
        0 <= d < path.len(),
        wf(t),
    ensures
        at(delete_subtree_at(t, path, d), path.skip(d)) is None,
    decreases path.len() - d,
{
    let rest = path.skip(d);
    assert(rest[0] == path[d]);
    assert(rest.drop_first() =~= path.skip(d + 1));
    match t {
        Tree::Leaf(_) => {},
        Tree::Level(es) => {
                lemma_level_wf(es);
            lemma_find(es, path[d]);
            let i = find(es, path[d]);
            if i >= 0 {
                if d == path.len() - 1 {
                    lemma_find_gone(es, i, path[d]);
                } else {
                    lemma_subtree_gone(es[i].1, path, d + 1);
                    lemma_find_update(es, i, delete_subtree_at(es[i].1, path, d + 1), path[d]);
                }
            }
        },
    }
}

/// After a subtree is taken out, nothing stands at its path.
pub proof fn a_swept_subtree_is_gone(t: Tree, path: Seq<Seq<char>>)
    requires
        path.len() > 0,
        wf(t),
    ensures
        at(delete_subtree_at(t, path, 0), path) is None,
{
    assert(path.skip(0) =~= path);
    lemma_subtree_gone(t, path, 0);
}

proof fn lemma_put_keeps_wf(es: Seq<(Seq<char>, Tree)>, name: Seq<char>, v: Tree)
    requires
        wf(Tree::Level(es)),
        wf(v),
    ensures
        wf(Tree::Level(put(es, name, v))),
{
    let u = put(es, name, v);
    lemma_level_wf(es);
    lemma_level_wf(u);
    lemma_find(es, name);
    if find(es, name) >= 0 {
        let i = find(es, name);
        assert forall|a: int, b: int| 0 <= a < b < u.len() implies u[a].0 != u[b].0 by {
            assert(u[a].0 == es[a].0);
            assert(u[b].0 == es[b].0);
        }
        assert forall|a: int| 0 <= a < u.len() implies wf(u[a].1) by {
            if a != i {
                assert(u[a] == es[a]);
            }
        }
    } else {
        assert forall|a: int, b: int| 0 <= a < b < u.len() implies u[a].0 != u[b].0 by {
            if b < es.len() {
                assert(u[a] == es[a]);
                assert(u[b] == es[b]);
            } else {
                assert(u[a] == es[a]);
            }
        }
        assert forall|a: int| 0 <= a < u.len() implies wf(u[a].1) by {
            if a < es.len() {
                assert(u[a] == es[a]);
            }
        }
    }
}

proof fn lemma_remove_keeps_wf(es: Seq<(Seq<char>, Tree)>, i: int)
    requires
        wf(Tree::Level(es)),
        0 <= i < es.len(),
    ensures
        wf(Tree::Level(es.remove(i))),
{
    let u = es.remove(i);
    lemma_level_wf(es);
    lemma_level_wf(u);
    assert forall|a: int, b: int| 0 <= a < b < u.len() implies u[a].0 != u[b].0 by {
        let a0 = if a < i { a } else { a + 1 };
        let b0 = if b < i { b } else { b + 1 };
        assert(u[a] == es[a0]);
        assert(u[b] == es[b0]);
    }
    assert forall|a: int| 0 <= a < u.len() implies wf(u[a].1) by {
        let a0 = if a < i { a } else { a + 1 };
        assert(u[a] == es[a0]);
    }
}

proof fn lemma_set_keeps_wf(t: Tree, path: Seq<Seq<char>>, d: int, v: Tree)
    requires
        0 <= d <= path.len(),
        wf(t),
        wf(v),
    ensures
        set_at(t, path, d, v) is Ok ==> wf(set_at(t, path, d, v)->Ok_0),
    decreases path.len() - d,
{
    if d < path.len() {
        match t {
            Tree::Leaf(_) => {},
            Tree::Level(es) => {
                lemma_level_wf(es);
                lemma_find(es, path[d]);
                if d == path.len() - 1 {
                    lemma_put_keeps_wf(es, path[d], v);
                } else {
                    let c = match child(t, path[d]) {
                        Some(c) => c,
                        None => Tree::Level(Seq::empty()),
                    };
                    lemma_level_wf(Seq::empty());
                    lemma_set_keeps_wf(c, path, d + 1, v);
                    if set_at(c, path, d + 1, v) is Ok {
                        lemma_put_keeps_wf(es, path[d], set_at(c, path, d + 1, v)->Ok_0);
                    }
                }
            },
        }
    }
}

proof fn lemma_delete_keeps_wf(t: Tree, path: Seq<Seq<char>>, d: int)
    requires
        0 <= d <= path.len(),
        wf(t),
    ensures
        wf(delete_at(t, path, d).0),
        delete_at(t, path, d).1 matches Some(gone) ==> wf(gone),
    decreases path.len() - d,
{
    if d < path.len() {
        match t {
            Tree::Leaf(_) => {},
            Tree::Level(es) => {
                lemma_level_wf(es);
                lemma_find(es, path[d]);
                let i = find(es, path[d]);
                if i >= 0 {
                    if d == path.len() - 1 {
                        lemma_remove_keeps_wf(es, i);
                    } else {
                        lemma_delete_keeps_wf(es[i].1, path, d + 1);
                        let below = delete_at(es[i].1, path, d + 1);
                        if below.1 is Some {
                            if below.0 == Tree::Level(Seq::empty()) {
                                lemma_remove_keeps_wf(es, i);
                            } else {
                                lemma_put_keeps_wf(es, path[d], below.0);
                                assert(put(es, path[d], below.0) == es.update(i, (path[d], below.0)));
                            }
                        }
                    }
                }
            },
        }
    }
}

proof fn lemma_subtree_keeps_wf(t: Tree, path: Seq<Seq<char>>, d: int)
    requires
        0 <= d <= path.len(),
        wf(t),
    ensures
        wf(delete_subtree_at(t, path, d)),
    decreases path.len() - d,
{
    if d < path.len() {
        match t {
            Tree::Leaf(_) => {},
            Tree::Level(es) => {
                lemma_level_wf(es);
                lemma_find(es, path[d]);
                let i = find(es, path[d]);
                if i >= 0 {
                    if d == path.len() - 1 {
                        lemma_remove_keeps_wf(es, i);
                    } else {
                        lemma_subtree_keeps_wf(es[i].1, path, d + 1);
                        lemma_put_keeps_wf(es, path[d], delete_subtree_at(es[i].1, path, d + 1));
                        assert(put(es, path[d], delete_subtree_at(es[i].1, path, d + 1))
                            == es.update(i, (path[d], delete_subtree_at(es[i].1, path, d + 1))));
                    }
                }
            },
        }
    }
    else {
        assert(wf(Tree::Level(Seq::<(Seq<char>, Tree)>::empty())));
    }
}

/// Every change a document takes keeps each level naming its children once:
/// a write, a delete and a sweep all do, and so do the empty level and every
/// value.
pub proof fn every_change_keeps_names_unique(t: Tree, path: Seq<Seq<char>>, v: Tree, bytes: Seq<u8>)
    requires
        wf(t),
        wf(v),
    ensures
        wf(Tree::Level(Seq::empty())),
        wf(Tree::Leaf(bytes)),
        set_at(t, path, 0, v) is Ok ==> wf(set_at(t, path, 0, v)->Ok_0),
        wf(delete_at(t, path, 0).0),
        wf(delete_subtree_at(t, path, 0)),
{
    lemma_set_keeps_wf(t, path, 0, v);
    lemma_delete_keeps_wf(t, path, 0);
    lemma_subtree_keeps_wf(t, path, 0);
}


/// What stands at `a` and then `b` is what stands at `b` under what stands
/// at `a`.
pub proof fn lemma_at_joined(t: Tree, a: Seq<Seq<char>>, b: Seq<Seq<char>>)
    ensures
        at(t, a + b) == match at(t, a) {
            Some(x) => at(x, b),
            None => None,
        },
    decreases a.len(),
{
    if a.len() == 0 {
        assert(a + b =~= b);
    } else {
        assert((a + b)[0] == a[0]);
        assert((a + b).drop_first() =~= a.drop_first() + b);
        match child(t, a[0]) {
            Some(c) => lemma_at_joined(c, a.drop_first(), b),
            None => {},
        }
    }
}

/// Every level of what stands in a document names its children once where
/// the document's levels do.
pub proof fn lemma_wf_below(t: Tree, p: Seq<Seq<char>>)
    requires
        wf(t),
        at(t, p) is Some,
    ensures
        wf(at(t, p)->0),
{
    let v = at(t, p)->0;
    assert forall|q: Seq<Seq<char>>| level_names_once(#[trigger] at(v, q)) by {
        lemma_at_joined(t, p, q);
        assert(level_names_once(at(t, p + q)));
    }
}

proof fn lemma_set_what_stands_at(t: Tree, path: Seq<Seq<char>>, d: int, v: Tree)
    requires
        0 <= d <= path.len(),
        at(t, path.skip(d)) == Some(v),
    ensures
        set_at(t, path, d, v) == Ok::<Tree, OccupiedView>(t),
    decreases path.len() - d,
{
    let rest = path.skip(d);
    if d == path.len() {
        assert(rest =~= Seq::<Seq<char>>::empty());
    } else {
        assert(rest[0] == path[d]);
        assert(rest.drop_first() =~= path.skip(d + 1));
        match t {
            Tree::Leaf(_) => {},
            Tree::Level(es) => {
                lemma_find(es, path[d]);
                let i = find(es, path[d]);
                if d == path.len() - 1 {
                    assert(path.skip(d + 1) =~= Seq::<Seq<char>>::empty());
                    assert(at(es[i].1, path.skip(d + 1)) == Some(es[i].1));
                    assert(es[i].1 == v);
                    assert(es[i] == (path[d], v));
                    assert(es.update(i, (path[d], v)) =~= es);
                } else {
                    lemma_set_what_stands_at(es[i].1, path, d + 1, v);
                    assert(es.update(i, (path[d], es[i].1)) =~= es);
                }
            },
        }
    }
}

/// Writing what already stands at a path changes nothing.
pub proof fn lemma_set_what_stands(t: Tree, path: Seq<Seq<char>>, v: Tree)
    requires
        at(t, path) == Some(v),
    ensures
        set_at(t, path, 0, v) == Ok::<Tree, OccupiedView>(t),
{
    assert(path.skip(0) =~= path);
    lemma_set_what_stands_at(t, path, 0, v);
}

/// A delete that takes nothing leaves the document as it was.
pub proof fn lemma_delete_nothing(t: Tree, path: Seq<Seq<char>>)
    requires
        path.len() > 0,
        at(t, path) is None,
    ensures
        delete_at(t, path, 0).0 == t,
{
    lemma_delete_takes_what_stood(t, path, 0);
    assert(path.skip(0) =~= path);
}

/// Taking out the entry at `i` leaves every child of another name.
proof fn lemma_child_remove_other(es: Seq<(Seq<char>, Tree)>, i: int, other: Seq<char>)
    requires
        0 <= i < es.len(),
        es[i].0 != other,
    ensures
        child(Tree::Level(es.remove(i)), other) == child(Tree::Level(es), other),
{
    let u = es.remove(i);
    lemma_find(es, other);
    lemma_find(u, other);
    let f = find(es, other);
    let g = find(u, other);
    if f >= 0 {
        if f < i {
            assert(u[f] == es[f]);
            if g >= 0 && g < f {
                assert(u[g] == es[g]);
            }
        } else {
            assert(f > i);
            assert(u[f - 1] == es[f]);
            if g >= 0 && g < f - 1 {
                if g < i {
                    assert(u[g] == es[g]);
                } else {
                    assert(u[g] == es[g + 1]);
                }
            }
        }
    } else if g >= 0 {
        if g < i {
            assert(u[g] == es[g]);
        } else {
            assert(u[g] == es[g + 1]);
        }
    }
}

proof fn lemma_delete_leaves_the_rest_at(t: Tree, path: Seq<Seq<char>>, d: int, r: Seq<Seq<char>>)
    requires
        0 <= d < path.len(),
        wf(t),
        diverge(r, path.skip(d)),
    ensures
        at(delete_at(t, path, d).0, r) == at(t, r),
    decreases path.len() - d,
{
    let rest = path.skip(d);
    assert(rest[0] == path[d]);
    assert(rest.drop_first() =~= path.skip(d + 1));
    let k = choose|k: int| 0 <= k < r.len() && k < rest.len() && r[k] != rest[k];
    match t {
        Tree::Leaf(_) => {},
        Tree::Level(es) => {
            lemma_level_wf(es);
            lemma_find(es, path[d]);
            let i = find(es, path[d]);
            if i >= 0 {
                if r[0] != path[d] {
                    if d == path.len() - 1 {
                        lemma_child_remove_other(es, i, r[0]);
                    } else {
                        let below = delete_at(es[i].1, path, d + 1);
                        if below.1 is None {
                        } else if below.0 == Tree::Level(Seq::empty()) {
                            lemma_child_remove_other(es, i, r[0]);
                        } else {
                            assert(put(es, path[d], below.0) == es.update(i, (path[d], below.0)));
                            lemma_child_put_other(es, path[d], below.0, r[0]);
                        }
                    }
                } else {
                    assert(k > 0);
                    assert(d < path.len() - 1);
                    let r2 = r.drop_first();
                    assert(r2[k - 1] == r[k]);
                    assert(path.skip(d + 1)[k - 1] == rest[k]);
                    assert(diverge(r2, path.skip(d + 1)));
                    let below = delete_at(es[i].1, path, d + 1);
                    lemma_delete_leaves_the_rest_at(es[i].1, path, d + 1, r2);
                    if below.1 is None {
                    } else if below.0 == Tree::Level(Seq::empty()) {
                        lemma_find_gone(es, i, path[d]);
                        lemma_at_empty_level(r2);
                    } else {
                        lemma_find_update(es, i, below.0, path[d]);
                    }
                }
            }
        },
    }
}

/// A delete leaves every path that parts from its own where it was, the
/// levels it emptied on the way up included: a level holding such a path is
/// not empty.
pub proof fn lemma_delete_leaves_the_rest(t: Tree, path: Seq<Seq<char>>, r: Seq<Seq<char>>)
    requires
        path.len() > 0,
        wf(t),
        diverge(r, path),
    ensures
        at(delete_at(t, path, 0).0, r) == at(t, r),
{
    assert(path.skip(0) =~= path);
    lemma_delete_leaves_the_rest_at(t, path, 0, r);
}

proof fn lemma_sweep_leaves_the_rest_at(t: Tree, path: Seq<Seq<char>>, d: int, r: Seq<Seq<char>>)
    requires
        0 <= d < path.len(),
        diverge(r, path.skip(d)),
    ensures
        at(delete_subtree_at(t, path, d), r) == at(t, r),
    decreases path.len() - d,
{
    let rest = path.skip(d);
    assert(rest[0] == path[d]);
    assert(rest.drop_first() =~= path.skip(d + 1));
    let k = choose|k: int| 0 <= k < r.len() && k < rest.len() && r[k] != rest[k];
    match t {
        Tree::Leaf(_) => {},
        Tree::Level(es) => {
            lemma_find(es, path[d]);
            let i = find(es, path[d]);
            if i >= 0 {
                if r[0] != path[d] {
                    if d == path.len() - 1 {
                        lemma_child_remove_other(es, i, r[0]);
                    } else {
                        let below = delete_subtree_at(es[i].1, path, d + 1);
                        assert(put(es, path[d], below) == es.update(i, (path[d], below)));
                        lemma_child_put_other(es, path[d], below, r[0]);
                    }
                } else {
                    assert(k > 0);
                    assert(d < path.len() - 1);
                    let r2 = r.drop_first();
                    assert(r2[k - 1] == r[k]);
                    assert(path.skip(d + 1)[k - 1] == rest[k]);
                    let below = delete_subtree_at(es[i].1, path, d + 1);
                    lemma_sweep_leaves_the_rest_at(es[i].1, path, d + 1, r2);
                    lemma_find_update(es, i, below, path[d]);
                }
            }
        },
    }
}

/// Taking out a subtree leaves every path that parts from its own where it
/// was.
pub proof fn lemma_sweep_leaves_the_rest(t: Tree, path: Seq<Seq<char>>, r: Seq<Seq<char>>)
    requires
        path.len() > 0,
        diverge(r, path),
    ensures
        at(delete_subtree_at(t, path, 0), r) == at(t, r),
{
    assert(path.skip(0) =~= path);
    lemma_sweep_leaves_the_rest_at(t, path, 0, r);
}


/// What stands one level under `p` is the child of what stands at `p`.
pub proof fn lemma_at_push(t: Tree, p: Seq<Seq<char>>, name: Seq<char>)
    ensures
        at(t, p.push(name)) == match at(t, p) {
            Some(x) => child(x, name),
            None => None,
        },
{
    lemma_at_joined(t, p, seq![name]);
    assert(p.push(name) =~= p + seq![name]);
    let one = seq![name];
    assert(one.drop_first() =~= Seq::<Seq<char>>::empty());
    assert(one[0] == name);
    match at(t, p) {
        Some(x) => {
            match child(x, name) {
                Some(c) => {
                    assert(at(c, one.drop_first()) == Some(c));
                    assert(at(x, one) == Some(c));
                },
                None => {
                    assert(at(x, one) is None);
                },
            }
        },
        None => {},
    }
}

proof fn lemma_child_entry(f: Fields, i: int)
    requires
        0 <= i < f.entries@.len(),
        distinct_names(f.entries@),
    ensures
        child(Node::Level(f).tree(), f.entries@[i].0@) == Some(f.entries@[i].1.tree()),
{
    lemma_level_tree(f);
    lemma_entry_trees(f.entries@);
    let es = entry_trees(f.entries@);
    lemma_find(es, f.entries@[i].0@);
    let k = find(es, f.entries@[i].0@);
    if k != i {
        if k < i {
            assert(es[k].0 == es[i].0);
        } else {
            assert(es[i].0 != f.entries@[i].0@);
        }
    }
}

/// Every event is a place where the two documents differ, carrying what each
/// holds there, a write where the new one holds something and a removal where
/// it holds nothing, all at `order` and all read off the file.
pub open spec fn differs_as_told(events: Seq<DocEvent>, old: Tree, new: Tree, order: u64) -> bool {
    forall|i: int| 0 <= i < events.len() ==> {
        let e = #[trigger] events[i];
        &&& taken_tree(e.old) == at(old, e.path@)
        &&& taken_tree(e.new) == at(new, e.path@)
        &&& at(old, e.path@) != at(new, e.path@)
        &&& e.op == (if e.new is Some { StoreOp::Put } else { StoreOp::Delete })
        &&& e.at == order
        &&& e.from_disk
    }
}

proof fn lemma_told_push(events: Seq<DocEvent>, e: DocEvent, old: Tree, new: Tree, order: u64)
    requires
        differs_as_told(events, old, new, order),
        differs_as_told(seq![e], old, new, order),
    ensures
        differs_as_told(events.push(e), old, new, order),
{
    assert forall|i: int| 0 <= i < events.push(e).len() implies {
        let x = #[trigger] events.push(e)[i];
        &&& taken_tree(x.old) == at(old, x.path@)
        &&& taken_tree(x.new) == at(new, x.path@)
        &&& at(old, x.path@) != at(new, x.path@)
        &&& x.op == (if x.new is Some { StoreOp::Put } else { StoreOp::Delete })
        &&& x.at == order
        &&& x.from_disk
    } by {
        if i < events.len() {
            assert(events.push(e)[i] == events[i]);
        } else {
            assert(events.push(e)[i] == seq![e][0]);
        }
    }
}

/// Whether the two documents differ at `q` where one of them holds a value
/// there.
pub open spec fn differs_at_a_value(old: Tree, new: Tree, q: Seq<Seq<char>>) -> bool {
    (is_leaf(at(old, q)) || is_leaf(at(new, q))) && at(old, q) != at(new, q)
}

/// Whether some event is at `q` or above it.
pub open spec fn told_of(events: Seq<DocEvent>, q: Seq<Seq<char>>) -> bool {
    exists|i: int| 0 <= i < events.len() && is_under(q, #[trigger] events[i].path@)
}

/// What stands under `p` is what stands under what stands at `p`.
proof fn lemma_at_under(t: Tree, p: Seq<Seq<char>>, q: Seq<Seq<char>>)
    requires
        is_under(q, p),
    ensures
        at(t, q) == match at(t, p) {
            Some(x) => at(x, q.skip(p.len() as int)),
            None => None,
        },
{
    assert(q =~= p + q.skip(p.len() as int));
    lemma_at_joined(t, p, q.skip(p.len() as int));
}

/// A path under `p` and longer than it is under `p` and its next level.
proof fn lemma_under_next(q: Seq<Seq<char>>, p: Seq<Seq<char>>)
    requires
        is_under(q, p),
        q.len() > p.len(),
    ensures
        is_under(q, p.push(q[p.len() as int])),
{
    assert(q.subrange(0, (p.len() + 1) as int) =~= p.push(q[p.len() as int]));
}

proof fn lemma_told_kept(before: Seq<DocEvent>, after: Seq<DocEvent>, q: Seq<Seq<char>>)
    requires
        before.len() <= after.len(),
        after.subrange(0, before.len() as int) == before,
        told_of(before, q),
    ensures
        told_of(after, q),
{
    let i = choose|i: int| 0 <= i < before.len() && is_under(q, #[trigger] before[i].path@);
    assert(after.subrange(0, before.len() as int)[i] == after[i]);
}

proof fn lemma_name_held(f: Fields, name: Seq<char>)
    requires
        child(Node::Level(f).tree(), name) is Some,
    ensures
        exists|j: int| 0 <= j < f.entries@.len() && #[trigger] f.entries@[j].0@ == name,
{
    lemma_level_tree(f);
    lemma_entry_trees(f.entries@);
    lemma_find(entry_trees(f.entries@), name);
    let k = find(entry_trees(f.entries@), name);
    assert(f.entries@[k].0@ == name);
}

proof fn lemma_name_missing(f: Fields, name: Seq<char>)
    requires
        forall|j: int| 0 <= j < f.entries@.len() ==> #[trigger] f.entries@[j].0@ != name,
    ensures
        child(Node::Level(f).tree(), name) is None,
{
    lemma_level_tree(f);
    lemma_entry_trees(f.entries@);
    lemma_find(entry_trees(f.entries@), name);
    if find(entry_trees(f.entries@), name) >= 0 {
        let k = find(entry_trees(f.entries@), name);
        assert(f.entries@[k].0@ == name);
    }
}

/// Every value under `n`, which stands at `path` on one side and not at all on
/// the other, told as written (`removed` false) or removed.
fn tell_all(
    n: &Node,
    path: &StorePath,
    declared: &Declared,
    removed: bool,
    order: u64,
    out: &mut Vec<DocEvent>,
    Ghost(old_root): Ghost<Tree>,
    Ghost(new_root): Ghost<Tree>,
)
    requires
        removed ==> at(old_root, path@) == Some(n.tree()) && at(new_root, path@) is None,
        !removed ==> at(new_root, path@) == Some(n.tree()) && at(old_root, path@) is None,
        differs_as_told(old(out)@, old_root, new_root, order),
    ensures
        differs_as_told(final(out)@, old_root, new_root, order),
        old(out)@.len() <= final(out)@.len(),
        final(out)@.subrange(0, old(out)@.len() as int) == old(out)@,
        forall|q: Seq<Seq<char>>| is_under(q, path@) && #[trigger] differs_at_a_value(old_root, new_root, q) ==> told_of(final(out)@, q),
    decreases n,
{
    let ghost start = out@;
    let value_here = match declared.holds(path) {
        Holds::Value => true,
        Holds::Level => !n.is_level(),
    };
    if value_here {
        let e = if removed {
            DocEvent { path: path.copied(), op: StoreOp::Delete, old: Some(n.copied()), new: None, at: order, from_disk: true }
        } else {
            DocEvent { path: path.copied(), op: StoreOp::Put, old: None, new: Some(n.copied()), at: order, from_disk: true }
        };
        proof {
            lemma_told_push(out@, e, old_root, new_root, order);
        }
        out.push(e);
        proof {
            assert(out@.subrange(0, start.len() as int) =~= start);
            assert forall|q: Seq<Seq<char>>| is_under(q, path@) && #[trigger] differs_at_a_value(old_root, new_root, q) implies told_of(out@, q) by {
                assert(out@[start.len() as int].path@ == path@);
            }
        }
        return;
    }
    match n {
        Node::Leaf(_) => {},
        Node::Level(f) => {
            proof {
                use_type_invariant(f);
            }
            let mut i: usize = 0;
            assert(out@.subrange(0, start.len() as int) =~= start);
            while i < f.entries.len()
                invariant
                    *n == Node::Level(*f),
                    n.tree() is Level,
                    distinct_names(f.entries@),
                    i <= f.entries@.len(),
                    removed ==> at(old_root, path@) == Some(n.tree()) && at(new_root, path@) is None,
                    !removed ==> at(new_root, path@) == Some(n.tree()) && at(old_root, path@) is None,
                    differs_as_told(out@, old_root, new_root, order),
                    start.len() <= out@.len(),
                    out@.subrange(0, start.len() as int) == start,
                    forall|q: Seq<Seq<char>>|
                        is_under(q, path@) && q.len() > path@.len()
                            && (exists|j: int| 0 <= j < i && #[trigger] f.entries@[j].0@ == q[path@.len() as int])
                            && #[trigger] differs_at_a_value(old_root, new_root, q) ==> told_of(out@, q),
                decreases f.entries@.len() - i,
            {
                proof {
                    assert(decreases_to!(*n => n->Level_0));
                    assert(n->Level_0 == *f);
                    assert(decreases_to!(*f => f.entries));
                    assert(decreases_to!(f.entries => f.entries@));
                    assert(decreases_to!(f.entries@ => f.entries@[i as int]));
                    assert(decreases_to!(f.entries@[i as int] => f.entries@[i as int].1));
                }
                let name = &f.entries[i].0;
                let below = path.join(&StorePath::segment(name.as_str()));
                proof {
                    assert(below@ == path@.push(name@));
                    lemma_child_entry(*f, i as int);
                    lemma_at_push(old_root, path@, name@);
                    lemma_at_push(new_root, path@, name@);
                }
                let ghost mid = out@;
                tell_all(&f.entries[i].1, &below, declared, removed, order, out, Ghost(old_root), Ghost(new_root));
                proof {
                    assert(out@.subrange(0, start.len() as int) =~= mid.subrange(0, start.len() as int)) by {
                        assert forall|k: int| 0 <= k < start.len() implies out@[k] == mid[k] by {
                            assert(out@.subrange(0, mid.len() as int)[k] == out@[k]);
                        }
                    }
                    assert forall|q: Seq<Seq<char>>|
                        is_under(q, path@) && q.len() > path@.len()
                            && (exists|j: int| 0 <= j < i + 1 && #[trigger] f.entries@[j].0@ == q[path@.len() as int])
                            && #[trigger] differs_at_a_value(old_root, new_root, q) implies told_of(out@, q) by {
                        if q[path@.len() as int] == name@ {
                            lemma_under_next(q, path@);
                        } else {
                            let j = choose|j: int| 0 <= j < i + 1 && #[trigger] f.entries@[j].0@ == q[path@.len() as int];
                            assert(j < i);
                            assert(told_of(mid, q));
                            lemma_told_kept(mid, out@, q);
                        }
                    }
                }
                i = i + 1;
            }
            proof {
                assert forall|q: Seq<Seq<char>>| is_under(q, path@) && #[trigger] differs_at_a_value(old_root, new_root, q) implies told_of(out@, q) by {
                    if q.len() == path@.len() {
                        assert(q =~= path@);
                    } else {
                        let name = q[path@.len() as int];
                        if !(exists|j: int| 0 <= j < f.entries@.len() && #[trigger] f.entries@[j].0@ == name) {
                            lemma_name_missing(*f, name);
                            lemma_under_next(q, path@);
                            lemma_at_push(old_root, path@, name);
                            lemma_at_push(new_root, path@, name);
                            lemma_at_under(old_root, path@.push(name), q);
                            lemma_at_under(new_root, path@.push(name), q);
                        }
                    }
                }
            }
        },
    }
}

/// The values that differ between `o` and `n`, which stand at `path` on the
/// two sides.
fn tell_differences(
    o: &Node,
    n: &Node,
    path: &StorePath,
    declared: &Declared,
    order: u64,
    out: &mut Vec<DocEvent>,
    Ghost(old_root): Ghost<Tree>,
    Ghost(new_root): Ghost<Tree>,
)
    requires
        at(old_root, path@) == Some(o.tree()),
        at(new_root, path@) == Some(n.tree()),
        differs_as_told(old(out)@, old_root, new_root, order),
    ensures
        differs_as_told(final(out)@, old_root, new_root, order),
        old(out)@.len() <= final(out)@.len(),
        final(out)@.subrange(0, old(out)@.len() as int) == old(out)@,
        forall|q: Seq<Seq<char>>| is_under(q, path@) && #[trigger] differs_at_a_value(old_root, new_root, q) ==> told_of(final(out)@, q),
    decreases o,
{
    let ghost start = out@;
    assert(out@.subrange(0, start.len() as int) =~= start);
    if o.same_tree(n) {
        proof {
            assert forall|q: Seq<Seq<char>>| is_under(q, path@) && #[trigger] differs_at_a_value(old_root, new_root, q) implies told_of(out@, q) by {
                lemma_at_under(old_root, path@, q);
                lemma_at_under(new_root, path@, q);
            }
        }
        return;
    }
    let value_here = match declared.holds(path) {
        Holds::Value => true,
        Holds::Level => !o.is_level() || !n.is_level(),
    };
    if value_here {
        let e = DocEvent { path: path.copied(), op: StoreOp::Put, old: Some(o.copied()), new: Some(n.copied()), at: order, from_disk: true };
        proof {
            lemma_told_push(out@, e, old_root, new_root, order);
        }
        out.push(e);
        proof {
            assert(out@.subrange(0, start.len() as int) =~= start);
            assert forall|q: Seq<Seq<char>>| is_under(q, path@) && #[trigger] differs_at_a_value(old_root, new_root, q) implies told_of(out@, q) by {
                assert(out@[start.len() as int].path@ == path@);
            }
        }
        return;
    }
    match (o, n) {
        (Node::Level(f), Node::Level(g)) => {
            proof {
                use_type_invariant(f);
                use_type_invariant(g);
            }
            let mut i: usize = 0;
            while i < f.entries.len()
                invariant
                    *o == Node::Level(*f),
                    *n == Node::Level(*g),
                    o.tree() is Level,
                    n.tree() is Level,
                    distinct_names(f.entries@),
                    distinct_names(g.entries@),
                    i <= f.entries@.len(),
                    at(old_root, path@) == Some(o.tree()),
                    at(new_root, path@) == Some(n.tree()),
                    differs_as_told(out@, old_root, new_root, order),
                    start.len() <= out@.len(),
                    out@.subrange(0, start.len() as int) == start,
                    forall|q: Seq<Seq<char>>|
                        is_under(q, path@) && q.len() > path@.len()
                            && (exists|j: int| 0 <= j < i && #[trigger] f.entries@[j].0@ == q[path@.len() as int])
                            && #[trigger] differs_at_a_value(old_root, new_root, q) ==> told_of(out@, q),
                decreases f.entries@.len() - i,
            {
                proof {
                    assert(decreases_to!(*o => o->Level_0));
                    assert(o->Level_0 == *f);
                    assert(decreases_to!(*f => f.entries));
                    assert(decreases_to!(f.entries => f.entries@));
                    assert(decreases_to!(f.entries@ => f.entries@[i as int]));
                    assert(decreases_to!(f.entries@[i as int] => f.entries@[i as int].1));
                }
                let name = &f.entries[i].0;
                let below = path.join(&StorePath::segment(name.as_str()));
                proof {
                    assert(below@ == path@.push(name@));
                    lemma_child_entry(*f, i as int);
                    lemma_at_push(old_root, path@, name@);
                    lemma_at_push(new_root, path@, name@);
                }
                let ghost mid = out@;
                match n.get_child(name.as_str()) {
                    Some(d) => {
                        tell_differences(&f.entries[i].1, d, &below, declared, order, out, Ghost(old_root), Ghost(new_root));
                    },
                    None => {
                        tell_all(&f.entries[i].1, &below, declared, true, order, out, Ghost(old_root), Ghost(new_root));
                    },
                }
                proof {
                    assert(out@.subrange(0, start.len() as int) =~= mid.subrange(0, start.len() as int)) by {
                        assert forall|k: int| 0 <= k < start.len() implies out@[k] == mid[k] by {
                            assert(out@.subrange(0, mid.len() as int)[k] == out@[k]);
                        }
                    }
                    assert forall|q: Seq<Seq<char>>|
                        is_under(q, path@) && q.len() > path@.len()
                            && (exists|j: int| 0 <= j < i + 1 && #[trigger] f.entries@[j].0@ == q[path@.len() as int])
                            && #[trigger] differs_at_a_value(old_root, new_root, q) implies told_of(out@, q) by {
                        if q[path@.len() as int] == name@ {
                            lemma_under_next(q, path@);
                        } else {
                            let j = choose|j: int| 0 <= j < i + 1 && #[trigger] f.entries@[j].0@ == q[path@.len() as int];
                            assert(j < i);
                            assert(told_of(mid, q));
                            lemma_told_kept(mid, out@, q);
                        }
                    }
                }
                i = i + 1;
            }
            let mut j: usize = 0;
            while j < g.entries.len()
                invariant
                    *o == Node::Level(*f),
                    *n == Node::Level(*g),
                    o.tree() is Level,
                    n.tree() is Level,
                    distinct_names(g.entries@),
                    j <= g.entries@.len(),
                    at(old_root, path@) == Some(o.tree()),
                    at(new_root, path@) == Some(n.tree()),
                    differs_as_told(out@, old_root, new_root, order),
                    start.len() <= out@.len(),
                    out@.subrange(0, start.len() as int) == start,
                    forall|q: Seq<Seq<char>>|
                        is_under(q, path@) && q.len() > path@.len()
                            && ((exists|k: int| 0 <= k < f.entries@.len() && #[trigger] f.entries@[k].0@ == q[path@.len() as int])
                                || (exists|k: int| 0 <= k < j && #[trigger] g.entries@[k].0@ == q[path@.len() as int]))
                            && #[trigger] differs_at_a_value(old_root, new_root, q) ==> told_of(out@, q),
                decreases g.entries@.len() - j,
            {
                let name = &g.entries[j].0;
                let ghost mid = out@;
                let in_old = o.get_child(name.as_str()).is_some();
                if !in_old {
                    let below = path.join(&StorePath::segment(name.as_str()));
                    proof {
                        assert(below@ == path@.push(name@));
                        lemma_child_entry(*g, j as int);
                        lemma_at_push(old_root, path@, name@);
                        lemma_at_push(new_root, path@, name@);
                    }
                    tell_all(&g.entries[j].1, &below, declared, false, order, out, Ghost(old_root), Ghost(new_root));
                } else {
                    proof {
                        lemma_name_held(*f, name@);
                        assert(out@.subrange(0, mid.len() as int) =~= mid);
                    }
                }
                proof {
                    assert(out@.subrange(0, start.len() as int) =~= mid.subrange(0, start.len() as int)) by {
                        assert forall|k: int| 0 <= k < start.len() implies out@[k] == mid[k] by {
                            assert(out@.subrange(0, mid.len() as int)[k] == out@[k]);
                        }
                    }
                    assert forall|q: Seq<Seq<char>>|
                        is_under(q, path@) && q.len() > path@.len()
                            && ((exists|k: int| 0 <= k < f.entries@.len() && #[trigger] f.entries@[k].0@ == q[path@.len() as int])
                                || (exists|k: int| 0 <= k < j + 1 && #[trigger] g.entries@[k].0@ == q[path@.len() as int]))
                            && #[trigger] differs_at_a_value(old_root, new_root, q) implies told_of(out@, q) by {
                        if q[path@.len() as int] == name@ && !in_old {
                            lemma_under_next(q, path@);
                        } else {
                            if !(exists|k: int| 0 <= k < f.entries@.len() && #[trigger] f.entries@[k].0@ == q[path@.len() as int]) {
                                let k = choose|k: int| 0 <= k < j + 1 && #[trigger] g.entries@[k].0@ == q[path@.len() as int];
                                if k == j {
                                    assert(in_old);
                                } else {
                                    assert(k < j);
                                }
                            }
                            assert(told_of(mid, q));
                            lemma_told_kept(mid, out@, q);
                        }
                    }
                }
                j = j + 1;
            }
            proof {
                assert forall|q: Seq<Seq<char>>| is_under(q, path@) && #[trigger] differs_at_a_value(old_root, new_root, q) implies told_of(out@, q) by {
                    if q.len() == path@.len() {
                        assert(q =~= path@);
                    } else {
                        let name = q[path@.len() as int];
                        if !(exists|k: int| 0 <= k < f.entries@.len() && #[trigger] f.entries@[k].0@ == name)
                            && !(exists|k: int| 0 <= k < g.entries@.len() && #[trigger] g.entries@[k].0@ == name) {
                            lemma_name_missing(*f, name);
                            lemma_name_missing(*g, name);
                            lemma_under_next(q, path@);
                            lemma_at_push(old_root, path@, name);
                            lemma_at_push(new_root, path@, name);
                            lemma_at_under(old_root, path@.push(name), q);
                            lemma_at_under(new_root, path@.push(name), q);
                        }
                    }
                }
            }
        },
        _ => {},
    }
}

/// What changed between two readings of a document, as events read off the
/// file: where the two hold the same, nothing; otherwise, walking the levels
/// the declarations leave as levels, one event for each value that differs -
/// a write carrying what each reading holds there, or a removal where the new
/// reading holds nothing. Values are compared as the documents hold them.
pub fn diff_documents(old: &Node, new: &Node, declared: &Declared, order: u64) -> (r: Vec<DocEvent>)
    ensures
        differs_as_told(r@, old.tree(), new.tree(), order),
        in_order(r@),
        old.tree() == new.tree() ==> r@.len() == 0,
        forall|q: Seq<Seq<char>>| #[trigger] differs_at_a_value(old.tree(), new.tree(), q) ==> told_of(r@, q),
{
    let mut out: Vec<DocEvent> = Vec::new();
    if old.same_tree(new) {
        return out;
    }
    let root = StorePath::root();
    proof {
        assert(root@ == Seq::<Seq<char>>::empty());
    }
    tell_differences(old, new, &root, declared, order, &mut out, Ghost(old.tree()), Ghost(new.tree()));
    proof {
        assert forall|q: Seq<Seq<char>>| #[trigger] differs_at_a_value(old.tree(), new.tree(), q) implies told_of(out@, q) by {
            assert(is_under(q, root@));
        }
    }
    in_path_order(out, Ghost(old.tree()), Ghost(new.tree()), order)
}

/// Whether some event is at `p`.
pub open spec fn has_path(events: Seq<DocEvent>, p: Seq<Seq<char>>) -> bool {
    exists|j: int| 0 <= j < events.len() && #[trigger] events[j].path@ == p
}

/// Each event's path comes before the next one's.
pub open spec fn in_order(events: Seq<DocEvent>) -> bool {
    forall|i: int, j: int| 0 <= i < j < events.len() ==> path_less(#[trigger] events[i].path@, #[trigger] events[j].path@)
}

/// The events put in path order, one for each path.
fn in_path_order(events: Vec<DocEvent>, Ghost(old_root): Ghost<Tree>, Ghost(new_root): Ghost<Tree>, order: u64) -> (r: Vec<DocEvent>)
    requires
        differs_as_told(events@, old_root, new_root, order),
    ensures
        differs_as_told(r@, old_root, new_root, order),
        in_order(r@),
        r@.len() <= events@.len(),
        forall|q: Seq<Seq<char>>| #[trigger] told_of(events@, q) ==> told_of(r@, q),
{
    let mut out: Vec<DocEvent> = Vec::new();
    let mut rest = events;
    let ghost all = rest@;
    while rest.len() > 0
        invariant
            differs_as_told(all, old_root, new_root, order),
            differs_as_told(out@, old_root, new_root, order),
            in_order(out@),
            rest@ == all.subrange(0, rest@.len() as int),
            out@.len() + rest@.len() <= all.len(),
            forall|i: int| rest@.len() <= i < all.len() ==> has_path(out@, #[trigger] all[i].path@),
        decreases rest@.len(),
    {
        let ghost n = rest@.len();
        let e = rest.pop().unwrap();
        proof {
            assert(e == all[n - 1]);
            assert(rest@ =~= all.subrange(0, rest@.len() as int));
            assert(differs_as_told(seq![e], old_root, new_root, order)) by {
                assert(seq![e][0] == all[n - 1]);
            }
        }
        let mut k: usize = 0;
        while k < out.len() && out[k].path.precedes(&e.path)
            invariant
                k <= out@.len(),
                forall|i: int| 0 <= i < k ==> path_less(#[trigger] out@[i].path@, e.path@),
            decreases out@.len() - k,
        {
            k = k + 1;
        }
        if k < out.len() && out[k].path.same_as(&e.path) {
            proof {
                assert(has_path(out@, all[n - 1].path@)) by {
                    assert(out@[k as int].path@ == e.path@);
                }
            }
            continue;
        }
        proof {
            if k < out@.len() {
                lemma_path_less_total(out@[k as int].path@, e.path@);
                assert forall|j: int| k < j < out@.len() implies path_less(e.path@, #[trigger] out@[j].path@) by {
                    lemma_path_less_transitive(e.path@, out@[k as int].path@, out@[j].path@);
                }
            }
        }
        let ghost before = out@;
        out.insert(k, e);
        proof {
            assert(out@ == before.insert(k as int, e));
            assert forall|i: int, j: int| 0 <= i < j < out@.len() implies path_less(#[trigger] out@[i].path@, #[trigger] out@[j].path@) by {
                if j < k {
                    assert(out@[i] == before[i] && out@[j] == before[j]);
                } else if j == k {
                    assert(out@[i] == before[i]);
                } else if i == k {
                    assert(out@[j] == before[j - 1]);
                } else if i < k {
                    assert(out@[i] == before[i] && out@[j] == before[j - 1]);
                    lemma_path_less_transitive(before[i].path@, e.path@, before[j - 1].path@);
                } else {
                    assert(out@[i] == before[i - 1] && out@[j] == before[j - 1]);
                }
            }
            assert forall|i: int| rest@.len() <= i < all.len() implies has_path(out@, #[trigger] all[i].path@) by {
                if i == n - 1 {
                    assert(out@[k as int].path@ == all[i].path@);
                } else {
                    assert(has_path(before, all[i].path@));
                    let j = choose|j: int| 0 <= j < before.len() && #[trigger] before[j].path@ == all[i].path@;
                    if j < k {
                        assert(out@[j] == before[j]);
                    } else {
                        assert(out@[j + 1] == before[j]);
                    }
                }
            }
            assert forall|i: int| 0 <= i < out@.len() implies {
                let x = #[trigger] out@[i];
                &&& taken_tree(x.old) == at(old_root, x.path@)
                &&& taken_tree(x.new) == at(new_root, x.path@)
                &&& at(old_root, x.path@) != at(new_root, x.path@)
                &&& x.op == (if x.new is Some { StoreOp::Put } else { StoreOp::Delete })
                &&& x.at == order
                &&& x.from_disk
            } by {
                if i < k {
                    assert(out@[i] == before[i]);
                } else if i == k {
                    assert(out@[i] == seq![e][0]);
                } else {
                    assert(out@[i] == before[i - 1]);
                }
            }
        }
    }
    proof {
        assert forall|q: Seq<Seq<char>>| #[trigger] told_of(events@, q) implies told_of(out@, q) by {
            let i = choose|i: int| 0 <= i < all.len() && is_under(q, #[trigger] all[i].path@);
            assert(has_path(out@, all[i].path@));
            let j = choose|j: int| 0 <= j < out@.len() && #[trigger] out@[j].path@ == all[i].path@;
            assert(is_under(q, out@[j].path@));
        }
    }
    out
}

} // verus!
