//! What a struct declares, as the code says it and as the store wrote it down.
//!
//! Both are trees of the same shape: a name, what stands at it, and for a node
//! the names beneath. [`DeclaredTree`] is that shape, and both forms are read
//! through it.

use crate::path::StorePath;
use vstd::prelude::*;

verus! {

/// What a declared place holds.
#[derive(Debug, Clone, Copy, PartialEq, Eq, Structural)]
pub enum Role {
    /// One value.
    Field,
    /// A level of entries under one name.
    Entries,
    /// The way to the places beneath it, holding nothing itself.
    Node,
}

/// One declaration, as a tree: the shape both the declared and the recorded
/// forms are read as.
pub struct DeclaredTree {
    pub name: Seq<Seq<char>>,
    pub type_label: Seq<char>,
    pub role: Role,
    pub optional: bool,
    pub flattened: bool,
    pub children: Seq<DeclaredTree>,
}

/// The version a prefix's data stands at.
#[derive(Debug, Clone, Copy, PartialEq, Eq, Default, Structural)]
pub struct PrefixMeta {
    pub version: u32,
}

/// What the type said a declared path is, written down.
#[derive(Debug, PartialEq)]
pub struct StoredShape {
    pub role: Role,
    /// Whether the path may hold nothing and still be a path.
    pub optional: bool,
    /// For a [`Role::Node`], the paths that live under it.
    pub children: Vec<StoredFieldEntry>,
    /// Whether this node gave the paths under it a segment of its own.
    pub flattened: bool,
}

/// One declared path as the store holds it.
#[derive(Debug, PartialEq)]
pub struct StoredFieldEntry {
    /// Where the field sits under its holder, level by level.
    pub name: StorePath,
    /// How the type was spelled, for a person reading the file.
    pub type_label: String,
    /// What the path is.
    pub shape: StoredShape,
}

/// The places declared at one prefix, written down.
#[derive(Debug, PartialEq)]
pub struct SchemaSnapshot {
    pub version: u32,
    /// A label for a person; nothing compares it.
    pub struct_name: Option<String>,
    pub fields: Vec<StoredFieldEntry>,
}

/// One declared field, as the code writes it.
#[derive(Debug, PartialEq)]
pub struct FieldDescriptor {
    /// Where the field lands under its holder, level by level.
    pub name: StorePath,
    /// The name as written in the declaration.
    pub declared: String,
    pub type_label: String,
    pub role: Role,
    pub optional: bool,
    pub flattened: bool,
    pub children: Vec<FieldDescriptor>,
}

/// The tree a recorded entry reads as.
pub open spec fn entry_tree(e: StoredFieldEntry) -> DeclaredTree
    decreases e,
{
    DeclaredTree {
        name: e.name@,
        type_label: e.type_label@,
        role: e.shape.role,
        optional: e.shape.optional,
        flattened: e.shape.flattened,
        children: entry_trees(e.shape.children@),
    }
}

/// The trees a list of recorded entries reads as, in order.
pub open spec fn entry_trees(s: Seq<StoredFieldEntry>) -> Seq<DeclaredTree>
    decreases s,
{
    if s.len() == 0 {
        Seq::empty()
    } else {
        entry_trees(s.drop_last()).push(entry_tree(s[s.len() - 1]))
    }
}

/// The tree a declared field reads as.
pub open spec fn field_tree(f: FieldDescriptor) -> DeclaredTree
    decreases f,
{
    DeclaredTree {
        name: f.name@,
        type_label: f.type_label@,
        role: f.role,
        optional: f.optional,
        flattened: f.flattened,
        children: field_trees(f.children@),
    }
}

/// The trees a list of declared fields reads as, in order.
pub open spec fn field_trees(s: Seq<FieldDescriptor>) -> Seq<DeclaredTree>
    decreases s,
{
    if s.len() == 0 {
        Seq::empty()
    } else {
        field_trees(s.drop_last()).push(field_tree(s[s.len() - 1]))
    }
}

impl View for StoredFieldEntry {
    type V = DeclaredTree;

    open spec fn view(&self) -> DeclaredTree {
        entry_tree(*self)
    }
}

impl View for FieldDescriptor {
    type V = DeclaredTree;

    open spec fn view(&self) -> DeclaredTree {
        field_tree(*self)
    }
}

pub proof fn lemma_entry_trees(s: Seq<StoredFieldEntry>)
    ensures
        entry_trees(s).len() == s.len(),
        forall|i: int| 0 <= i < s.len() ==> #[trigger] entry_trees(s)[i] == entry_tree(s[i]),
    decreases s.len(),
{
    if s.len() > 0 {
        lemma_entry_trees(s.drop_last());
    }
}

pub proof fn lemma_field_trees(s: Seq<FieldDescriptor>)
    ensures
        field_trees(s).len() == s.len(),
        forall|i: int| 0 <= i < s.len() ==> #[trigger] field_trees(s)[i] == field_tree(s[i]),
    decreases s.len(),
{
    if s.len() > 0 {
        lemma_field_trees(s.drop_last());
    }
}

impl StoredShape {
    /// One value, always present, holding nothing under it.
    pub fn field() -> (r: StoredShape)
        ensures
            r.role == Role::Field,
            !r.optional,
            !r.flattened,
            r.children@.len() == 0,
    {
        StoredShape { role: Role::Field, optional: false, children: Vec::new(), flattened: false }
    }
}

impl StoredFieldEntry {
    /// What a declared field is written down as: the same tree, node for node.
    pub fn from_declared(field: &FieldDescriptor) -> (r: StoredFieldEntry)
        ensures
            r@ == field@,
        decreases field,
    {
        let mut children: Vec<StoredFieldEntry> = Vec::new();
        let mut i: usize = 0;
        while i < field.children.len()
            invariant
                i <= field.children@.len(),
                children@.len() == i,
                forall|j: int| 0 <= j < i ==> #[trigger] children@[j]@ == field.children@[j]@,
            decreases field.children@.len() - i,
        {
            proof {
                assert(decreases_to!(field.children => field.children[i as int]));
            }
            children.push(StoredFieldEntry::from_declared(&field.children[i]));
            i = i + 1;
        }
        proof {
            lemma_entry_trees(children@);
            lemma_field_trees(field.children@);
            assert forall|j: int| 0 <= j < children@.len() implies entry_trees(children@)[j]
                == field_trees(field.children@)[j] by {
                assert(children@[j]@ == field.children@[j]@);
            }
            assert(entry_trees(children@) =~= field_trees(field.children@));
        }
        StoredFieldEntry {
            name: field.name.copied(),
            type_label: field.type_label.clone(),
            shape: StoredShape {
                role: field.role,
                optional: field.optional,
                children,
                flattened: field.flattened,
            },
        }
    }

    /// Whether two recorded entries are the same tree.
    pub fn same_as(&self, other: &StoredFieldEntry) -> (b: bool)
        ensures
            b == (self@ == other@),
        decreases self,
    {
        if !self.name.same_as(&other.name) || self.type_label != other.type_label
            || self.shape.role != other.shape.role || self.shape.optional != other.shape.optional
            || self.shape.flattened != other.shape.flattened {
            return false;
        }
        proof {
            lemma_entry_trees(self.shape.children@);
            lemma_entry_trees(other.shape.children@);
        }
        if self.shape.children.len() != other.shape.children.len() {
            return false;
        }
        let mut i: usize = 0;
        while i < self.shape.children.len()
            invariant
                i <= self.shape.children@.len(),
                self.shape.children@.len() == other.shape.children@.len(),
                entry_trees(self.shape.children@).len() == self.shape.children@.len(),
                entry_trees(other.shape.children@).len() == other.shape.children@.len(),
                forall|j: int| 0 <= j < i ==> entry_trees(self.shape.children@)[j] == entry_trees(other.shape.children@)[j],
                forall|j: int| 0 <= j < self.shape.children@.len() ==> #[trigger] entry_trees(self.shape.children@)[j] == entry_tree(self.shape.children@[j]),
                forall|j: int| 0 <= j < other.shape.children@.len() ==> #[trigger] entry_trees(other.shape.children@)[j] == entry_tree(other.shape.children@[j]),
            decreases self.shape.children@.len() - i,
        {
            proof {
                assert(decreases_to!(self.shape.children => self.shape.children[i as int]));
            }
            if !self.shape.children[i].same_as(&other.shape.children[i]) {
                assert(entry_trees(self.shape.children@)[i as int] != entry_trees(other.shape.children@)[i as int]);
                return false;
            }
            i = i + 1;
        }
        assert(entry_trees(self.shape.children@) =~= entry_trees(other.shape.children@));
        true
    }
}

/// Whether two lists of recorded entries are the same trees, in the same order.
pub fn same_entries(a: &Vec<StoredFieldEntry>, b: &Vec<StoredFieldEntry>) -> (r: bool)
    ensures
        r == (entry_trees(a@) == entry_trees(b@)),
{
    proof {
        lemma_entry_trees(a@);
        lemma_entry_trees(b@);
    }
    if a.len() != b.len() {
        return false;
    }
    let mut i: usize = 0;
    while i < a.len()
        invariant
            i <= a@.len(),
            a@.len() == b@.len(),
            entry_trees(a@).len() == a@.len(),
            entry_trees(b@).len() == b@.len(),
            forall|j: int| 0 <= j < i ==> entry_trees(a@)[j] == entry_trees(b@)[j],
            forall|j: int| 0 <= j < a@.len() ==> #[trigger] entry_trees(a@)[j] == entry_tree(a@[j]),
            forall|j: int| 0 <= j < b@.len() ==> #[trigger] entry_trees(b@)[j] == entry_tree(b@[j]),
        decreases a@.len() - i,
    {
        if !a[i].same_as(&b[i]) {
            assert(entry_trees(a@)[i as int] != entry_trees(b@)[i as int]);
            return false;
        }
        i = i + 1;
    }
    assert(entry_trees(a@) =~= entry_trees(b@));
    true
}

/// What a snapshot says, apart from the label nothing compares.
pub open spec fn snapshot_says(s: SchemaSnapshot) -> (u32, Option<Seq<char>>, Seq<DeclaredTree>) {
    (
        s.version,
        match s.struct_name {
            Some(n) => Some(n@),
            None => None,
        },
        entry_trees(s.fields@),
    )
}

impl SchemaSnapshot {
    /// Whether two snapshots record the same thing, label included.
    pub fn same_as(&self, other: &SchemaSnapshot) -> (b: bool)
        ensures
            b == (snapshot_says(*self) == snapshot_says(*other)),
    {
        if self.version != other.version {
            return false;
        }
        let names_agree = match (&self.struct_name, &other.struct_name) {
            (Some(a), Some(b)) => *a == *b,
            (None, None) => true,
            _ => false,
        };
        if !names_agree {
            return false;
        }
        same_entries(&self.fields, &other.fields)
    }
}

impl StoredFieldEntry {
    /// The same entry, held separately.
    pub fn copied(&self) -> (r: StoredFieldEntry)
        ensures
            r@ == self@,
        decreases self,
    {
        let mut children: Vec<StoredFieldEntry> = Vec::new();
        let mut i: usize = 0;
        while i < self.shape.children.len()
            invariant
                i <= self.shape.children@.len(),
                children@.len() == i,
                forall|j: int| 0 <= j < i ==> #[trigger] children@[j]@ == self.shape.children@[j]@,
            decreases self.shape.children@.len() - i,
        {
            proof {
                assert(decreases_to!(self.shape.children => self.shape.children[i as int]));
            }
            children.push(self.shape.children[i].copied());
            i = i + 1;
        }
        proof {
            lemma_entry_trees(children@);
            lemma_entry_trees(self.shape.children@);
            assert forall|j: int| 0 <= j < children@.len() implies entry_trees(children@)[j]
                == entry_trees(self.shape.children@)[j] by {
                assert(children@[j]@ == self.shape.children@[j]@);
            }
            assert(entry_trees(children@) =~= entry_trees(self.shape.children@));
        }
        StoredFieldEntry {
            name: self.name.copied(),
            type_label: self.type_label.clone(),
            shape: StoredShape {
                role: self.shape.role,
                optional: self.shape.optional,
                children,
                flattened: self.shape.flattened,
            },
        }
    }
}

/// The same entries, held separately.
pub fn copied_entries(v: &Vec<StoredFieldEntry>) -> (r: Vec<StoredFieldEntry>)
    ensures
        entry_trees(r@) == entry_trees(v@),
{
    let mut out: Vec<StoredFieldEntry> = Vec::new();
    let mut i: usize = 0;
    while i < v.len()
        invariant
            i <= v@.len(),
            out@.len() == i,
            forall|j: int| 0 <= j < i ==> #[trigger] out@[j]@ == v@[j]@,
        decreases v@.len() - i,
    {
        out.push(v[i].copied());
        i = i + 1;
    }
    proof {
        lemma_entry_trees(out@);
        lemma_entry_trees(v@);
        assert forall|j: int| 0 <= j < out@.len() implies entry_trees(out@)[j] == entry_trees(v@)[j] by {
            assert(out@[j]@ == v@[j]@);
        }
        assert(entry_trees(out@) =~= entry_trees(v@));
    }
    out
}

impl SchemaSnapshot {
    /// The same snapshot, held separately.
    pub fn copied(&self) -> (r: SchemaSnapshot)
        ensures
            snapshot_says(r) == snapshot_says(*self),
    {
        let struct_name = match &self.struct_name {
            Some(n) => Some(n.clone()),
            None => None,
        };
        SchemaSnapshot { version: self.version, struct_name, fields: copied_entries(&self.fields) }
    }
}

impl FieldDescriptor {
    /// A field holding one value at `segments`, present always.
    pub fn leaf(segments: &[&str], joined: &str, type_label: &str) -> (r: FieldDescriptor)
        ensures
            r@.name == segments@.map_values(|s: &str| s@),
            r@.type_label == type_label@,
            r.role == Role::Field,
            !r.optional,
            !r.flattened,
            r.children@.len() == 0,
    {
        FieldDescriptor {
            name: StorePath::from_segments(segments),
            declared: joined.to_string(),
            type_label: type_label.to_string(),
            role: Role::Field,
            optional: false,
            flattened: false,
            children: Vec::new(),
        }
    }

    /// The place this field owns under `under`, or `None` for a node, which
    /// owns none of its own.
    pub fn owns(&self, under: &StorePath) -> (r: Option<StorePath>)
        ensures
            match r {
                Some(at) => self.role != Role::Node && at@ == under@ + self.name@,
                None => self.role == Role::Node,
            },
    {
        match self.role {
            Role::Node => None,
            _ => Some(under.join(&self.name)),
        }
    }

    /// Where the fields under this one sit: at its own path, or at its
    /// holder's where it is flattened.
    pub fn below(&self, under: &StorePath) -> (r: StorePath)
        ensures
            r@ == (if self.flattened { under@ } else { under@ + self.name@ }),
    {
        if self.flattened {
            under.copied()
        } else {
            under.join(&self.name)
        }
    }
}

} // verus!
