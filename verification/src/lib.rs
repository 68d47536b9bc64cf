//! A cookie-backed todo list core.
//!
//! The whole todo list of one client lives in that client's HTTP cookies:
//! one cookie per entry, the cookie's name being the entry's decimal id and
//! its value the entry serialized by the codec in [`codec`]. Every request
//! rebuilds the list from the cookies it carries, so the server keeps no
//! state of its own. This crate holds the core of that design — the codec,
//! the store layered over a cookie jar, the HTML renderer, and the create
//! and update handlers — with the behaviour of each stated in its contract.
//! The surrounding HTTP framework hands a jar in and takes the rewritten
//! jar and the rendered page back out.

pub mod codec;
pub mod entry;
pub mod form;
pub mod handlers;
pub mod jar;
pub mod laws;
pub mod render;
pub mod store;
pub mod text;
