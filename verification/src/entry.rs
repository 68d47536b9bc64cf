//! The todo entry itself, the update command, and the error kinds.

use vstd::prelude::*;

verus! {

/// One todo item: a finished flag, a name, and a free-form description.
#[derive(Clone, Debug)]
pub struct Entry {
    pub finished: bool,
    pub name: String,
    pub description: String,
}

/// Mathematical form of an entry: the flag and the two texts as character
/// sequences.
pub ghost struct EntryModel {
    pub finished: bool,
    pub name: Seq<char>,
    pub description: Seq<char>,
}

impl View for Entry {
    type V = EntryModel;

    open spec fn view(&self) -> EntryModel {
        EntryModel { finished: self.finished, name: self.name@, description: self.description@ }
    }
}

/// The entry a fresh creation stores: unfinished, with empty texts.
pub open spec fn default_model() -> EntryModel {
    EntryModel { finished: false, name: Seq::empty(), description: Seq::empty() }
}

impl Entry {
    /// A freshly created entry.
    pub fn empty() -> (e: Entry)
        ensures
            e@ == default_model(),
    {
        let e = Entry { finished: false, name: String::new(), description: String::new() };
        proof {
            assert(e@.name =~= default_model().name);
            assert(e@.description =~= default_model().description);
        }
        e
    }
}

/// What a submitted update form asks for.
#[derive(Clone, Copy, Debug, PartialEq, Eq, Structural)]
pub enum Command {
    Update,
    Delete,
}

/// A cookie that does not decode as a stored entry.
#[derive(Clone, Copy, Debug, PartialEq, Eq, Structural)]
pub enum ParseError {
    /// The cookie's name is not a decimal entry id.
    InvalidId,
    /// The cookie's value is not a serialized entry.
    InvalidEntry,
}

/// A submitted update form that does not parse.
#[derive(Clone, Copy, Debug, PartialEq, Eq, Structural)]
pub enum FormError {
    /// A required field is absent.
    MissingField,
    /// The command is neither `Update` nor `Delete`.
    BadCommand,
}

/// Why a mutation did not happen.
#[derive(Clone, Copy, Debug, PartialEq, Eq, Structural)]
pub enum MutateError {
    /// The submitted form does not parse.
    BadForm(FormError),
    /// No cookie carries the targeted id.
    NotFound,
}

} // verus!
