//! What a reactive field and a reactive map decide: what a field starts on
//! when it is built, what it does with each change it hears of, when a map's
//! declared entries are written, and how each change moves a map's cache.
//!
//! Decoding a stored value and running a declared check are the caller's:
//! what comes of them arrives here as plain values. A map's values are held as
//! the bytes they decode from.

use crate::buffer::{bytes_copied, distinct_keys, keyed, lemma_keyed};
use crate::check::Invalid;
use crate::events::StoreOp;
use crate::format::same_text;
use crate::overlay::buffered_op;
use crate::path::{is_under, StorePath};
use vstd::prelude::*;

verus! {

/// What a field does when the value it stands for is removed.
#[derive(Debug, Clone, Copy, PartialEq, Eq, Structural)]
pub enum OnDelete {
    /// Go back to the declared default.
    UseDefault,
    /// Keep what it had.
    Keep,
}

/// What reading a field's stored value came to when the field was built.
#[derive(Debug)]
pub enum Read {
    /// A value was there and decoded.
    Found,
    /// Nothing was stored there.
    Missing,
    /// A value was there and would not read. `covered` says whether the
    /// field's rule for unreadable values answers this failure, and
    /// `will_not_read` whether the failure is the value's rather than the
    /// store's.
    Unreadable { covered: bool, will_not_read: bool, why: String },
}

/// Why a field reports something other than what the store holds.
#[derive(Debug, PartialEq, Eq)]
pub enum Reason {
    /// A declared check refused the stored value.
    Refused(String),
    /// Writing the default was refused by what stood in the way.
    Occupied(String),
    /// The stored value would not read.
    WillNotRead(String),
}

/// Which value a field starts on.
#[derive(Debug, Clone, Copy, PartialEq, Eq, Structural)]
pub enum StartsOn {
    /// The value the store holds.
    Stored,
    /// The default the field was declared with.
    Default,
}

/// What a field starts on, and why it disagrees with the store if it does.
#[derive(Debug, PartialEq, Eq)]
pub struct FieldStart {
    pub on: StartsOn,
    pub reason: Option<Reason>,
}

/// Why building a field was refused.
#[derive(Debug, PartialEq, Eq)]
pub enum OpenRefusal {
    /// A declared check refused the stored value, and the field was told to
    /// refuse rather than start on its default.
    Refused { at: StorePath, said: String },
    /// The stored value will not read, and nothing answers that.
    WillNotRead { at: StorePath, why: String },
    /// The store itself failed.
    Store(String),
}

/// What a field at `path` starts on: the stored value where it read and
/// passed its check; the default, with the reason, where the check refused it
/// and the field may start on its default, where nothing was stored (naming
/// what stood in the way of writing the default, if anything did), or where
/// the value would not read and the field's rule answers that. Refused
/// otherwise.
pub fn field_start(
    path: &StorePath,
    read: Read,
    verdict: Option<Result<(), Invalid>>,
    refuse_on_unreadable: bool,
    in_the_way: Option<String>,
) -> (r: Result<FieldStart, OpenRefusal>)
    ensures
        match read {
            Read::Found => match verdict {
                Some(Err(invalid)) => if refuse_on_unreadable {
                    r matches Err(OpenRefusal::Refused { at, said }) && at@ == path@ && said@ == invalid@.reason
                } else {
                    r matches Ok(s) && s.on == StartsOn::Default && (s.reason matches Some(Reason::Refused(m)) && m@ == invalid@.reason)
                },
                _ => r matches Ok(s) && s.on == StartsOn::Stored && s.reason is None,
            },
            Read::Missing => r matches Ok(s) && s.on == StartsOn::Default && match in_the_way {
                Some(w) => s.reason matches Some(Reason::Occupied(m)) && m@ == w@,
                None => s.reason is None,
            },
            Read::Unreadable { covered, will_not_read, why } => if covered {
                r matches Ok(s) && s.on == StartsOn::Default && (s.reason matches Some(Reason::WillNotRead(m)) && m@ == why@)
            } else if will_not_read {
                r matches Err(OpenRefusal::WillNotRead { at, why: w }) && at@ == path@ && w@ == why@
            } else {
                r matches Err(OpenRefusal::Store(w)) && w@ == why@
            },
        },
{
    match read {
        Read::Found => match verdict {
            Some(Err(invalid)) => {
                let said = String::from_str(invalid.reason());
                if refuse_on_unreadable {
                    Err(OpenRefusal::Refused { at: path.copied(), said })
                } else {
                    Ok(FieldStart { on: StartsOn::Default, reason: Some(Reason::Refused(said)) })
                }
            },
            _ => Ok(FieldStart { on: StartsOn::Stored, reason: None }),
        },
        Read::Missing => match in_the_way {
            Some(w) => Ok(FieldStart { on: StartsOn::Default, reason: Some(Reason::Occupied(w)) }),
            None => Ok(FieldStart { on: StartsOn::Default, reason: None }),
        },
        Read::Unreadable { covered, will_not_read, why } => {
            if covered {
                Ok(FieldStart { on: StartsOn::Default, reason: Some(Reason::WillNotRead(why)) })
            } else if will_not_read {
                Err(OpenRefusal::WillNotRead { at: path.copied(), why })
            } else {
                Err(OpenRefusal::Store(why))
            }
        },
    }
}

/// What came of decoding the value a change carries.
#[derive(Debug)]
pub enum Decoded {
    /// It decoded.
    Read,
    /// It would not decode, and why.
    WillNotRead(String),
}

/// What a field does with a change at its path.
#[derive(Debug, PartialEq, Eq)]
pub enum FieldAction {
    /// Take the new value, and report no disagreement.
    Take,
    /// Keep what it had, report the check's refusal, and answer the change
    /// with it.
    Refuse(String),
    /// Keep what it had, and report that the new value would not read.
    KeepUnreadable(String),
    /// Go back to the declared default, and report no disagreement.
    Default,
    /// Nothing.
    Ignore,
}

/// What a field does with a change: `new` is what decoding the value it
/// carries came to, or `None` where the value was removed; `verdict` is the
/// field's declared check on the decoded value, if it has one. The check
/// answers only an edit made outside this process: a value this process
/// wrote was checked where it was written.
pub fn field_hears(new: Option<Decoded>, external: bool, verdict: Option<Result<(), Invalid>>, on_delete: OnDelete) -> (a: FieldAction)
    ensures
        match new {
            Some(Decoded::Read) => match verdict {
                Some(Err(invalid)) => if external {
                    a matches FieldAction::Refuse(m) && m@ == invalid@.reason
                } else {
                    a == FieldAction::Take
                },
                _ => a == FieldAction::Take,
            },
            Some(Decoded::WillNotRead(why)) => a matches FieldAction::KeepUnreadable(m) && m@ == why@,
            None => a == if on_delete == OnDelete::UseDefault { FieldAction::Default } else { FieldAction::Ignore },
        },
{
    match new {
        Some(Decoded::Read) => match verdict {
            Some(Err(invalid)) => {
                if external {
                    FieldAction::Refuse(String::from_str(invalid.reason()))
                } else {
                    FieldAction::Take
                }
            },
            _ => FieldAction::Take,
        },
        Some(Decoded::WillNotRead(why)) => FieldAction::KeepUnreadable(why),
        None => match on_delete {
            OnDelete::UseDefault => FieldAction::Default,
            OnDelete::Keep => FieldAction::Ignore,
        },
    }
}

/// Whether a map writes its declared entries as it is built: only where the
/// store never marked it written and holds nothing under it.
pub fn seeds_defaults(initialized: bool, loaded_empty: bool) -> (r: bool)
    ensures
        r == (!initialized && loaded_empty),
{
    !initialized && loaded_empty
}

/// Entries, as names and bytes.
pub open spec fn entry_views(s: Seq<(String, Vec<u8>)>) -> Seq<(Seq<char>, Seq<u8>)> {
    s.map_values(|e: (String, Vec<u8>)| (e.0@, e.1@))
}

/// What a reactive map holds: each entry's name and the bytes its value
/// reads from.
pub struct MapCache {
    entries: Vec<(String, Vec<u8>)>,
}

impl View for MapCache {
    type V = Map<Seq<char>, Seq<u8>>;

    closed spec fn view(&self) -> Map<Seq<char>, Seq<u8>> {
        keyed(entry_views(self.entries@))
    }
}

impl MapCache {
    #[verifier::type_invariant]
    spec fn well_formed(self) -> bool {
        distinct_keys(entry_views(self.entries@))
    }

    /// A map holding nothing.
    pub fn new() -> (r: MapCache)
        ensures
            r@ == Map::<Seq<char>, Seq<u8>>::empty(),
    {
        let r = MapCache { entries: Vec::new() };
        assert(entry_views(r.entries@) =~= Seq::empty());
        r
    }

    fn find(&self, key: &str) -> (r: Option<usize>)
        ensures
            match r {
                Some(i) => i < self.entries@.len() && self.entries@[i as int].0@ == key@,
                None => forall|i: int| 0 <= i < self.entries@.len() ==> self.entries@[i].0@ != key@,
            },
    {
        let mut i: usize = 0;
        while i < self.entries.len()
            invariant
                i <= self.entries@.len(),
                forall|j: int| 0 <= j < i ==> self.entries@[j].0@ != key@,
            decreases self.entries@.len() - i,
        {
            if same_text(self.entries[i].0.as_str(), key) {
                return Some(i);
            }
            i = i + 1;
        }
        None
    }

    /// The bytes held under `key`, if any.
    pub fn get(&self, key: &str) -> (r: Option<&Vec<u8>>)
        ensures
            match r {
                Some(v) => self@.contains_key(key@) && self@[key@] == v@,
                None => !self@.contains_key(key@),
            },
    {
        proof {
            use_type_invariant(self);
            lemma_keyed(entry_views(self.entries@));
        }
        match self.find(key) {
            Some(i) => {
                assert(entry_views(self.entries@)[i as int].0 == key@);
                Some(&self.entries[i].1)
            },
            None => {
                proof {
                    if self@.contains_key(key@) {
                        let j = choose|j: int| 0 <= j < entry_views(self.entries@).len() && entry_views(self.entries@)[j].0 == key@;
                        assert(self.entries@[j].0@ == key@);
                    }
                }
                None
            },
        }
    }

    /// How many entries it holds.
    pub fn len(&self) -> (r: usize)
        ensures
            r == self@.dom().len(),
    {
        proof {
            use_type_invariant(self);
            lemma_keyed(entry_views(self.entries@));
        }
        self.entries.len()
    }

    /// Holds `value` under `key`, in place of what was there.
    pub fn insert(&mut self, key: String, value: Vec<u8>)
        ensures
            final(self)@ == old(self)@.insert(key@, value@),
    {
        proof {
            use_type_invariant(&*self);
        }
        let found = self.find(key.as_str());
        let mut es: Vec<(String, Vec<u8>)> = Vec::new();
        std::mem::swap(&mut es, &mut self.entries);
        let ghost was = entry_views(es@);
        let ghost entry = (key@, value@);
        proof {
            lemma_keyed(was);
        }
        match found {
            Some(i) => {
                es.set(i, (key, value));
                proof {
                    let now = entry_views(es@);
                    assert(now =~= was.update(i as int, entry));
                    assert(was[i as int].0 == entry.0);
                    assert forall|a: int, b: int| 0 <= a < b < now.len() implies now[a].0 != now[b].0 by {
                        assert(now[a].0 == was[a].0);
                        assert(now[b].0 == was[b].0);
                    }
                    lemma_keyed(now);
                    assert forall|k: Seq<char>| #[trigger] keyed(now).contains_key(k) <==> keyed(was).insert(entry.0, entry.1).contains_key(k) by {
                        if keyed(was).contains_key(k) {
                            let j = choose|j: int| 0 <= j < was.len() && was[j].0 == k;
                            assert(now[j].0 == k);
                        }
                        if keyed(now).contains_key(k) {
                            let j = choose|j: int| 0 <= j < now.len() && now[j].0 == k;
                            assert(was[j].0 == k);
                        }
                    }
                    assert forall|k: Seq<char>| #[trigger] keyed(now).contains_key(k) implies keyed(now)[k] == keyed(was).insert(entry.0, entry.1)[k] by {
                        let j = choose|j: int| 0 <= j < now.len() && now[j].0 == k;
                        if j != i {
                            assert(now[j] == was[j]);
                        }
                    }
                    assert(keyed(now) =~= keyed(was).insert(entry.0, entry.1));
                }
            },
            None => {
                es.push((key, value));
                proof {
                    let now = entry_views(es@);
                    assert(now =~= was.push(entry));
                    assert(now.drop_last() =~= was);
                    assert forall|a: int, b: int| 0 <= a < b < now.len() implies now[a].0 != now[b].0 by {
                        if b < was.len() {
                            assert(now[a] == was[a]);
                            assert(now[b] == was[b]);
                        } else {
                            assert(now[a] == was[a]);
                        }
                    }
                }
            },
        }
        self.entries = es;
    }

    /// Takes out what is held under `key`, if anything.
    pub fn remove(&mut self, key: &str)
        ensures
            final(self)@ == old(self)@.remove(key@),
    {
        proof {
            use_type_invariant(&*self);
        }
        let found = self.find(key);
        let mut es: Vec<(String, Vec<u8>)> = Vec::new();
        std::mem::swap(&mut es, &mut self.entries);
        let ghost was = entry_views(es@);
        proof {
            lemma_keyed(was);
        }
        match found {
            Some(i) => {
                let _ = es.remove(i);
                proof {
                    let now = entry_views(es@);
                    assert(now =~= was.remove(i as int));
                    assert(was[i as int].0 == key@);
                    assert forall|a: int, b: int| 0 <= a < b < now.len() implies now[a].0 != now[b].0 by {
                        let a0 = if a < i { a } else { a + 1 };
                        let b0 = if b < i { b } else { b + 1 };
                        assert(now[a] == was[a0]);
                        assert(now[b] == was[b0]);
                    }
                    lemma_keyed(now);
                    assert forall|k: Seq<char>| #[trigger] keyed(now).contains_key(k) <==> keyed(was).remove(key@).contains_key(k) by {
                        if keyed(was).contains_key(k) && k != key@ {
                            let j = choose|j: int| 0 <= j < was.len() && was[j].0 == k;
                            assert(j != i);
                            if j < i {
                                assert(now[j] == was[j]);
                            } else {
                                assert(now[j - 1] == was[j]);
                            }
                        }
                        if keyed(now).contains_key(k) {
                            let j = choose|j: int| 0 <= j < now.len() && now[j].0 == k;
                            if j < i {
                                assert(now[j] == was[j]);
                            } else {
                                assert(now[j] == was[j + 1]);
                            }
                        }
                    }
                    assert forall|k: Seq<char>| #[trigger] keyed(now).contains_key(k) implies keyed(now)[k] == keyed(was).remove(key@)[k] by {
                        let j = choose|j: int| 0 <= j < now.len() && now[j].0 == k;
                        if j < i {
                            assert(now[j] == was[j]);
                        } else {
                            assert(now[j] == was[j + 1]);
                        }
                    }
                    assert(keyed(now) =~= keyed(was).remove(key@));
                }
            },
            None => {
                proof {
                    if keyed(was).contains_key(key@) {
                        let j = choose|j: int| 0 <= j < was.len() && was[j].0 == key@;
                        assert(es@[j].0@ == key@);
                    }
                    assert(keyed(was).remove(key@) =~= keyed(was));
                }
            },
        }
        self.entries = es;
    }
}

/// What a change did to a map, as its subscribers are told.
#[derive(Debug, PartialEq, Eq)]
pub enum MapChange {
    /// Everything went.
    Clear,
    /// An entry that was not there now is.
    Insert { key: String, value: Vec<u8> },
    /// An entry took a new value.
    Update { key: String, old_value: Option<Vec<u8>>, new_value: Vec<u8> },
    /// An entry went.
    Remove { key: String, old_value: Option<Vec<u8>> },
}

pub enum MapChangeView {
    Clear,
    Insert(Seq<char>, Seq<u8>),
    Update(Seq<char>, Option<Seq<u8>>, Seq<u8>),
    Remove(Seq<char>, Option<Seq<u8>>),
}

impl View for MapChange {
    type V = MapChangeView;

    open spec fn view(&self) -> MapChangeView {
        match self {
            MapChange::Clear => MapChangeView::Clear,
            MapChange::Insert { key, value } => MapChangeView::Insert(key@, value@),
            MapChange::Update { key, old_value, new_value } => MapChangeView::Update(key@, buffered_op(*old_value), new_value@),
            MapChange::Remove { key, old_value } => MapChangeView::Remove(key@, buffered_op(*old_value)),
        }
    }
}

pub open spec fn change_views(s: Seq<MapChange>) -> Seq<MapChangeView> {
    s.map_values(|c: MapChange| c@)
}

/// Why a map did not take a change.
#[derive(Debug, PartialEq, Eq)]
pub enum NotifyRefusal {
    /// The path is not one level under the map.
    NotAnEntry,
    /// The entry's name does not read as the map's key.
    KeyWillNotRead,
    /// The value the change carries would not decode.
    WillNotDecode(String),
    /// A write carried no value.
    SetWithoutValue,
}

pub enum NotifyRefusalView {
    NotAnEntry,
    KeyWillNotRead,
    WillNotDecode(Seq<char>),
    SetWithoutValue,
}

impl View for NotifyRefusal {
    type V = NotifyRefusalView;

    open spec fn view(&self) -> NotifyRefusalView {
        match self {
            NotifyRefusal::NotAnEntry => NotifyRefusalView::NotAnEntry,
            NotifyRefusal::KeyWillNotRead => NotifyRefusalView::KeyWillNotRead,
            NotifyRefusal::WillNotDecode(why) => NotifyRefusalView::WillNotDecode(why@),
            NotifyRefusal::SetWithoutValue => NotifyRefusalView::SetWithoutValue,
        }
    }
}

/// What decoding a change's new value came to, as a value.
pub open spec fn decoded_view(new: Option<Result<Vec<u8>, String>>) -> Option<Result<Seq<u8>, Seq<char>>> {
    match new {
        Some(Ok(v)) => Some(Ok(v@)),
        Some(Err(why)) => Some(Err(why@)),
        None => None,
    }
}

/// The declared entries, one `Insert` each, in order.
pub open spec fn inserts(declared: Seq<(Seq<char>, Seq<u8>)>) -> Seq<MapChangeView> {
    declared.map_values(|e: (Seq<char>, Seq<u8>)| MapChangeView::Insert(e.0, e.1))
}

/// [`map_hears`], as values: the map's cache after the change and what its
/// subscribers are told, or why it did not take the change.
pub open spec fn map_hears_of(
    cache: Map<Seq<char>, Seq<u8>>,
    map_path: Seq<Seq<char>>,
    op: StoreOp,
    path: Seq<Seq<char>>,
    key_reads: bool,
    new: Option<Result<Seq<u8>, Seq<char>>>,
    stored_old: Option<Seq<u8>>,
    declared: Seq<(Seq<char>, Seq<u8>)>,
) -> Result<(Map<Seq<char>, Seq<u8>>, Seq<MapChangeView>), NotifyRefusalView> {
    if op == StoreOp::DeletePrefix && path == map_path {
        Ok((keyed(declared), seq![MapChangeView::Clear] + inserts(declared)))
    } else if !(path.len() == map_path.len() + 1 && is_under(path, map_path)) {
        Err(NotifyRefusalView::NotAnEntry)
    } else if !key_reads {
        Err(NotifyRefusalView::KeyWillNotRead)
    } else {
        let k = path.last();
        let old_value = match stored_old {
            Some(o) => Some(o),
            None => if cache.contains_key(k) { Some(cache[k]) } else { None },
        };
        match new {
            Some(Err(why)) => Err(NotifyRefusalView::WillNotDecode(why)),
            _ => if op == StoreOp::Put {
                match new {
                    Some(Ok(v)) => if cache.contains_key(k) {
                        Ok((cache.insert(k, v), seq![MapChangeView::Update(k, old_value, v)]))
                    } else {
                        Ok((cache.insert(k, v), seq![MapChangeView::Insert(k, v)]))
                    },
                    _ => Err(NotifyRefusalView::SetWithoutValue),
                }
            } else {
                Ok((cache.remove(k), seq![MapChangeView::Remove(k, old_value)]))
            },
        }
    }
}

/// What a map at `map_path` does with a change at `path`. Where everything
/// under the map went, the cache is emptied and then holds `declared` (the
/// entries the map puts back when its level goes, or none), and its
/// subscribers hear `Clear` and then one `Insert` for each. Otherwise the
/// change has to be at an entry of the map whose name reads as its key
/// (`key_reads`), and carry a value that decodes where it carries one: a write
/// inserts or updates that entry, anything else removes it, and the value it
/// replaced is the one the change carried (`stored_old`, where that decoded)
/// or else what the map held. A change the map does not take leaves it as it
/// was.
pub fn map_hears(
    cache: &mut MapCache,
    map_path: &StorePath,
    op: StoreOp,
    path: &StorePath,
    key_reads: bool,
    new: Option<Result<Vec<u8>, String>>,
    stored_old: Option<Vec<u8>>,
    declared: &Vec<(String, Vec<u8>)>,
) -> (r: Result<Vec<MapChange>, NotifyRefusal>)
    ensures
        match map_hears_of(old(cache)@, map_path@, op, path@, key_reads, decoded_view(new), buffered_op(stored_old), entry_views(declared@)) {
            Ok((c, told)) => r matches Ok(changes) && final(cache)@ == c && change_views(changes@) == told,
            Err(e) => r matches Err(why) && why@ == e && final(cache)@ == old(cache)@,
        },
{
    if op == StoreOp::DeletePrefix && path.same_as(map_path) {
        let ghost dv = entry_views(declared@);
        let mut fresh = MapCache::new();
        let mut changes: Vec<MapChange> = Vec::new();
        changes.push(MapChange::Clear);
        let mut i: usize = 0;
        assert(dv.take(0) =~= Seq::<(Seq<char>, Seq<u8>)>::empty());
        assert(change_views(changes@) =~= seq![MapChangeView::Clear] + inserts(dv.take(0)));
        while i < declared.len()
            invariant
                i <= declared@.len(),
                dv == entry_views(declared@),
                fresh@ == keyed(dv.take(i as int)),
                change_views(changes@) == seq![MapChangeView::Clear] + inserts(dv.take(i as int)),
            decreases declared@.len() - i,
        {
            let key = declared[i].0.clone();
            let value = bytes_copied(&declared[i].1);
            let key2 = declared[i].0.clone();
            let value2 = bytes_copied(&declared[i].1);
            fresh.insert(key, value);
            let ghost before = changes@;
            let added = MapChange::Insert { key: key2, value: value2 };
            assert(added@ == MapChangeView::Insert(dv[i as int].0, dv[i as int].1));
            changes.push(added);
            proof {
                assert(changes@ == before.push(added));
                assert(change_views(changes@) =~= change_views(before).push(added@));
                assert(dv.take(i + 1).drop_last() =~= dv.take(i as int));
                assert(dv.take(i + 1)[i as int] == dv[i as int]);
                assert(inserts(dv.take(i + 1)) =~= inserts(dv.take(i as int)).push(MapChangeView::Insert(dv[i as int].0, dv[i as int].1)));
                assert(change_views(changes@) =~= seq![MapChangeView::Clear] + inserts(dv.take(i + 1)));
            }
            i = i + 1;
        }
        assert(dv.take(declared@.len() as int) =~= dv);
        *cache = fresh;
        return Ok(changes);
    }
    if !(path.len() > 0 && path.len() - 1 == map_path.len() && path.starts_with(map_path)) {
        return Err(NotifyRefusal::NotAnEntry);
    }
    if !key_reads {
        return Err(NotifyRefusal::KeyWillNotRead);
    }
    let name = path.level(path.len() - 1);
    let old_value: Option<Vec<u8>> = match stored_old {
        Some(o) => Some(o),
        None => match cache.get(name.as_str()) {
            Some(held) => Some(bytes_copied(held)),
            None => None,
        },
    };
    match new {
        Some(Err(why)) => Err(NotifyRefusal::WillNotDecode(why)),
        Some(Ok(value)) => {
            if op == StoreOp::Put {
                let copy = bytes_copied(&value);
                let had = cache.get(name.as_str()).is_some();
                cache.insert(name.clone(), value);
                if had {
                    Ok(vec![MapChange::Update { key: name.clone(), old_value, new_value: copy }])
                } else {
                    Ok(vec![MapChange::Insert { key: name.clone(), value: copy }])
                }
            } else {
                cache.remove(name.as_str());
                Ok(vec![MapChange::Remove { key: name.clone(), old_value }])
            }
        },
        None => {
            if op == StoreOp::Put {
                Err(NotifyRefusal::SetWithoutValue)
            } else {
                cache.remove(name.as_str());
                Ok(vec![MapChange::Remove { key: name.clone(), old_value }])
            }
        },
    }
}

} // verus!
