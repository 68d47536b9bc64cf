//! Reading a submitted update form.
//!
//! A form arrives as name/value pairs. The fields `name`, `description`
//! and `command` must be present; `command` must spell `Update` or
//! `Delete`; the checkbox field `finished` counts as true by its mere
//! presence and as false by its absence. `form_spec` is the mathematical
//! reading; `decode_update_form` is proved to follow it.

use vstd::prelude::*;
use vstd::string::StringExecFns;

use crate::entry::{Command, Entry, EntryModel, FormError};
use crate::jar::{has_name, lookup, lemma_lookup_at, lemma_lookup_missing};

verus! {

/// The submitted pairs as character sequences, in submission order.
pub open spec fn fields_deep(f: Seq<(String, String)>) -> Seq<(Seq<char>, Seq<char>)> {
    Seq::new(f.len(), |i: int| (f[i].0@, f[i].1@))
}

/// The mathematical reading of a submitted update form.
pub open spec fn form_spec(v: Seq<(Seq<char>, Seq<char>)>) -> Result<
    (EntryModel, Command),
    FormError,
> {
    match lookup(v, "name"@) {
        None => Err(FormError::MissingField),
        Some(name) => match lookup(v, "description"@) {
            None => Err(FormError::MissingField),
            Some(description) => match lookup(v, "command"@) {
                None => Err(FormError::MissingField),
                Some(cmd) => if cmd == "Update"@ {
                    Ok(
                        (
                            EntryModel { finished: has_name(v, "finished"@), name, description },
                            Command::Update,
                        ),
                    )
                } else if cmd == "Delete"@ {
                    Ok(
                        (
                            EntryModel { finished: has_name(v, "finished"@), name, description },
                            Command::Delete,
                        ),
                    )
                } else {
                    Err(FormError::BadCommand)
                },
            },
        },
    }
}

/// The value of the first field named `key`, if any.
fn find_field<'a>(fields: &'a Vec<(String, String)>, key: &str) -> (r: Option<&'a String>)
    ensures
        match r {
            Some(val) => lookup(fields_deep(fields@), key@) == Some(val@) && has_name(
                fields_deep(fields@),
                key@,
            ),
            None => lookup(fields_deep(fields@), key@) is None && !has_name(
                fields_deep(fields@),
                key@,
            ),
        },
{
    let ghost v = fields_deep(fields@);
    let key_string = String::from_str(key);
    let mut i: usize = 0;
    while i < fields.len()
        invariant
            i <= fields@.len(),
            v == fields_deep(fields@),
            key_string@ == key@,
            forall|j: int| 0 <= j < i ==> v[j].0 != key@,
        decreases fields@.len() - i,
    {
        if fields[i].0 == key_string {
            proof {
                assert(v[i as int].0 == key@);
                lemma_lookup_at(v, key@, i as int);
            }
            return Some(&fields[i].1);
        }
        i = i + 1;
    }
    proof {
        assert(!has_name(v, key@));
        lemma_lookup_missing(v, key@);
    }
    None
}

/// Reads a submitted update form into an entry and a command, following
/// `form_spec` exactly.
pub fn decode_update_form(fields: &Vec<(String, String)>) -> (r: Result<
    (Entry, Command),
    FormError,
>)
    ensures
        match r {
            Ok(p) => form_spec(fields_deep(fields@)) == Ok::<(EntryModel, Command), FormError>(
                (p.0@, p.1),
            ),
            Err(fe) => form_spec(fields_deep(fields@)) == Err::<(EntryModel, Command), FormError>(
                fe,
            ),
        },
{
    let name = match find_field(fields, "name") {
        Some(val) => val.clone(),
        None => {
            return Err(FormError::MissingField);
        },
    };
    let description = match find_field(fields, "description") {
        Some(val) => val.clone(),
        None => {
            return Err(FormError::MissingField);
        },
    };
    let cmd_text = match find_field(fields, "command") {
        Some(val) => val,
        None => {
            return Err(FormError::MissingField);
        },
    };
    let finished = match find_field(fields, "finished") {
        Some(_) => true,
        None => false,
    };
    let update_token = String::from_str("Update");
    let delete_token = String::from_str("Delete");
    let command = if *cmd_text == update_token {
        Command::Update
    } else if *cmd_text == delete_token {
        Command::Delete
    } else {
        return Err(FormError::BadCommand);
    };
    Ok((Entry { finished, name, description }, command))
}

} // verus!
