//! What goes wrong in a store kept as one text document.

use vstd::prelude::*;

verus! {

/// What goes wrong in a store kept as one text document. The I/O and codec
/// failures carry what their source said of them.
#[derive(Debug)]
pub enum TextStoreError {
    Io(String),
    Codec(String),
    RootMustBeObject,
    Watch(String),
}

/// How each failure reads: a codec failure as the codec put it, the others
/// with a word on where they came from.
pub open spec fn text_error_message(e: &TextStoreError) -> Seq<char> {
    match e {
        TextStoreError::Io(said) => "Text store IO error: "@ + said@,
        TextStoreError::Codec(said) => said@,
        TextStoreError::RootMustBeObject => "Text root must be an object/mapping"@,
        TextStoreError::Watch(said) => "File watcher error: "@ + said@,
    }
}

impl TextStoreError {
    /// How the failure reads.
    pub fn describe(&self) -> (r: String)
        ensures
            r@ == text_error_message(self),
    {
        match self {
            TextStoreError::Io(said) => {
                let mut r = String::from_str("Text store IO error: ");
                r.append(said.as_str());
                r
            },
            TextStoreError::Codec(said) => said.clone(),
            TextStoreError::RootMustBeObject => String::from_str("Text root must be an object/mapping"),
            TextStoreError::Watch(said) => {
                let mut r = String::from_str("File watcher error: ");
                r.append(said.as_str());
                r
            },
        }
    }
}

} // verus!
