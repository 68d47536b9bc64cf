//! The create and mutate operations on one client's jar.
//!
//! Creation allocates the id `|jar|` — the count of cookies now present —
//! and stores a fresh default entry there. That recomputed count is the
//! historical allocation policy this system keeps for compatibility: after
//! a deletion it can name an id that is still in use, and then overwrites
//! that entry. Mutation reads the submitted form and either rewrites or
//! removes the one cookie the target id names.

use vstd::prelude::*;

use crate::codec::encode_spec;
use crate::entry::{Command, Entry, MutateError, default_model};
use crate::form::{decode_update_form, fields_deep, form_spec};
use crate::jar::{CookieJar, has_name, jar_remove, jar_set};
use crate::store::{remove, store};
use crate::text::{dec_rep, fmt_id, string_from_chars};

verus! {

/// Creates a new entry: allocates the id `|jar|` and stores a default
/// entry under it, overwriting any cookie already of that name.
pub fn create_entry(jar: &mut CookieJar) -> (id: usize)
    requires
        old(jar).wf(),
    ensures
        final(jar).wf(),
        id == old(jar)@.len(),
        final(jar)@ == jar_set(old(jar)@, dec_rep(id as nat), encode_spec(default_model())),
{
    let id = jar.len();
    let e = Entry::empty();
    store(jar, id, &e);
    id
}

/// Applies a submitted update form to the entry of `id`: `Update` rewrites
/// the entry's cookie with the form's fields, `Delete` removes it. Refuses
/// a form that does not parse, and a target id whose cookie is absent; the
/// jar is then untouched.
pub fn mutate(jar: &mut CookieJar, id: usize, fields: &Vec<(String, String)>) -> (r: Result<
    (),
    MutateError,
>)
    requires
        old(jar).wf(),
    ensures
        final(jar).wf(),
        match r {
            Ok(()) => has_name(old(jar)@, dec_rep(id as nat)) && match form_spec(
                fields_deep(fields@),
            ) {
                Ok(p) => final(jar)@ == if p.1 is Update {
                    jar_set(old(jar)@, dec_rep(id as nat), encode_spec(p.0))
                } else {
                    jar_remove(old(jar)@, dec_rep(id as nat))
                },
                Err(_) => false,
            },
            Err(me) => final(jar)@ == old(jar)@ && match me {
                MutateError::BadForm(fe) => form_spec(fields_deep(fields@)) matches Err(g) && g
                    == fe,
                MutateError::NotFound => form_spec(fields_deep(fields@)) is Ok && !has_name(
                    old(jar)@,
                    dec_rep(id as nat),
                ),
            },
        },
{
    let (entry, command) = match decode_update_form(fields) {
        Ok(p) => p,
        Err(fe) => {
            return Err(MutateError::BadForm(fe));
        },
    };
    let name = string_from_chars(&fmt_id(id));
    if !jar.contains(&name) {
        return Err(MutateError::NotFound);
    }
    match command {
        Command::Update => {
            store(jar, id, &entry);
        },
        Command::Delete => {
            remove(jar, id);
        },
    }
    Ok(())
}

} // verus!
