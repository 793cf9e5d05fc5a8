//! A check's verdict against a value, and why.

use vstd::prelude::*;

verus! {

/// A check's verdict against a value, and why: written for whoever has to fix
/// the file, and naming - where it is about some fields of a struct and not
/// the rest - which ones.
#[derive(Debug, PartialEq, Eq)]
pub struct Invalid {
    reason: String,
    at: Vec<String>,
}

pub struct InvalidView {
    pub reason: Seq<char>,
    pub at: Seq<Seq<char>>,
}

impl View for Invalid {
    type V = InvalidView;

    closed spec fn view(&self) -> InvalidView {
        InvalidView { reason: self.reason@, at: self.at@.map_values(|s: String| s@) }
    }
}

impl Invalid {
    /// A verdict about the whole value.
    pub fn new(reason: &str) -> (r: Invalid)
        ensures
            r@.reason == reason@,
            r@.at.len() == 0,
    {
        let r = Invalid { reason: String::from_str(reason), at: Vec::new() };
        assert(r@.at =~= Seq::<Seq<char>>::empty());
        r
    }

    /// Names the fields a struct's check is about, by their stored names.
    pub fn at(self, fields: &[&str]) -> (r: Invalid)
        ensures
            r@.reason == self@.reason,
            r@.at == fields@.map_values(|s: &str| s@),
    {
        let mut at: Vec<String> = Vec::new();
        let mut i: usize = 0;
        while i < fields.len()
            invariant
                i <= fields@.len(),
                at@.len() == i,
                forall|j: int| 0 <= j < i ==> #[trigger] at@[j]@ == fields@[j]@,
            decreases fields@.len() - i,
        {
            at.push(String::from_str(fields[i]));
            i = i + 1;
        }
        let r = Invalid { reason: self.reason, at };
        assert(r@.at =~= fields@.map_values(|s: &str| s@));
        r
    }

    /// Why the value was refused.
    pub fn reason(&self) -> (r: &str)
        ensures
            r@ == self@.reason,
    {
        self.reason.as_str()
    }

    /// The fields named by [`Invalid::at`], or `None` for all of them.
    pub fn fields(&self) -> (r: Option<&Vec<String>>)
        ensures
            match r {
                Some(v) => self@.at.len() > 0 && v@.map_values(|s: String| s@) == self@.at,
                None => self@.at.len() == 0,
            },
    {
        if self.at.len() == 0 {
            None
        } else {
            Some(&self.at)
        }
    }
}

} // verus!
