//! The list renderer: the whole todo list as one HTML page.
//!
//! The page's title reports the finished and total counts; the body lists
//! one item per entry, in the order of the `EntrySet` — ascending by id —
//! each item a form that posts an update for its entry. Entry texts are
//! escaped before interpolation. `page_html` is the mathematical form of
//! the page; `render` is proved to produce exactly it.

use vstd::prelude::*;

use crate::entry::{Entry, EntryModel};
use crate::store::EntrySet;
use crate::text::{dec_rep, fmt_id, push_str_chars, string_from_chars};

verus! {

/// Escaping of one character for interpolation into HTML.
pub open spec fn html_esc_char(c: char) -> Seq<char> {
    if c == '&' {
        "&amp;"@
    } else if c == '<' {
        "&lt;"@
    } else if c == '>' {
        "&gt;"@
    } else if c == '"' {
        "&quot;"@
    } else if c == '\'' {
        "&#39;"@
    } else {
        seq![c]
    }
}

/// Escaping of a whole text for interpolation into HTML.
pub open spec fn html_esc(s: Seq<char>) -> Seq<char>
    decreases s.len(),
{
    if s.len() == 0 {
        Seq::empty()
    } else {
        html_esc_char(s[0]) + html_esc(s.drop_first())
    }
}

/// Escaping a single character is `html_esc_char`.
pub proof fn lemma_html_esc_one(c: char)
    ensures
        html_esc(seq![c]) == html_esc_char(c),
{
    let s = seq![c];
    assert(s.drop_first() =~= Seq::<char>::empty());
    assert(html_esc(s) == html_esc_char(c) + html_esc(s.drop_first()));
    assert(html_esc_char(c) + html_esc(s.drop_first()) =~= html_esc_char(c));
}

/// HTML escaping distributes over concatenation.
pub proof fn lemma_html_esc_append(a: Seq<char>, b: Seq<char>)
    ensures
        html_esc(a + b) == html_esc(a) + html_esc(b),
    decreases a.len(),
{
    if a.len() == 0 {
        assert(a + b =~= b);
        assert(html_esc(a) + html_esc(b) =~= html_esc(b));
    } else {
        assert((a + b).drop_first() =~= a.drop_first() + b);
        lemma_html_esc_append(a.drop_first(), b);
        assert(html_esc(a + b) =~= html_esc(a) + html_esc(b));
    }
}

/// How many entries of the sequence are finished.
pub open spec fn done_count(s: Seq<(usize, EntryModel)>) -> nat
    decreases s.len(),
{
    if s.len() == 0 {
        0
    } else {
        done_count(s.drop_last()) + if s.last().1.finished {
            1nat
        } else {
            0nat
        }
    }
}

/// The title's count report: finished over total.
pub open spec fn title_text(done: nat, total: nat) -> Seq<char> {
    "["@ + dec_rep(done) + " / "@ + dec_rep(total) + "]"@
}

/// The page up to the title's counts.
pub open spec fn tok_page_a() -> Seq<char> {
    "<!DOCTYPE html>\n<html lang=\"en\">\n<head>\n<meta charset=\"utf-8\" />\n<title>Todo | "@
}

/// The page between the title and the list.
pub open spec fn tok_page_b() -> Seq<char> {
    "</title>\n</head>\n<body>\n<h1>Todo</h1>\n<ol>"@
}

/// The page after the list: the creation form and the closing tags.
pub open spec fn tok_page_c() -> Seq<char> {
    "\n</ol>\n<form method=\"POST\" action=\"/new_entry\" id=\"new_entry\">\n<input type=\"submit\" value=\"New entry\">\n</form>\n</body>\n</html>"@
}

/// One list item: the entry's inline edit form.
pub open spec fn item_html(id: usize, e: EntryModel) -> Seq<char> {
    "\n<li>\n<form method=\"POST\" action=\"/update/"@ + dec_rep(id as nat)
        + "\" id=\"update_"@ + dec_rep(id as nat)
        + "\">\n<input type=\"checkbox\" name=\"finished\" value=\"true\""@ + (if e.finished {
        " checked"@
    } else {
        Seq::<char>::empty()
    }) + ">\n<input required name=\"name\" form=\"update_"@ + dec_rep(id as nat)
        + "\" placeholder=\"Name\" value=\""@ + html_esc(e.name)
        + "\">\n<input name=\"description\" form=\"update_"@ + dec_rep(id as nat)
        + "\" placeholder=\"Description\" value=\""@ + html_esc(e.description)
        + "\" size=\"48\">\n<input type=\"radio\" name=\"command\" value=\"Delete\"> Delete\n<input type=\"radio\" name=\"command\" value=\"Update\"> Update\n<input name=\"commit\" form=\"update_"@
        + dec_rep(id as nat) + "\" type=\"submit\" value=\"Commit\">\n</form>\n</li>"@
}

/// The list items, in the order of the sequence.
pub open spec fn items_html(s: Seq<(usize, EntryModel)>) -> Seq<char>
    decreases s.len(),
{
    if s.len() == 0 {
        Seq::empty()
    } else {
        items_html(s.drop_last()) + item_html(s.last().0, s.last().1)
    }
}

/// The whole page for a sequence of entries.
pub open spec fn page_html(s: Seq<(usize, EntryModel)>) -> Seq<char> {
    tok_page_a() + title_text(done_count(s), s.len() as nat) + tok_page_b() + items_html(s)
        + tok_page_c()
}

/// The page's title reports the finished count and the total count: at the
/// fixed offset where the title stands, the page carries exactly
/// `[done / total]` with `done` the number of finished entries and `total`
/// the length of the set.
pub proof fn lemma_render_counts(s: Seq<(usize, EntryModel)>)
    ensures
        ({
            let t = title_text(done_count(s), s.len() as nat);
            let k = tok_page_a().len() as int;
            &&& k + t.len() <= page_html(s).len()
            &&& page_html(s).subrange(k, k + t.len() as int) == t
        }),
{
    let t = title_text(done_count(s), s.len() as nat);
    let k = tok_page_a().len() as int;
    assert(page_html(s).subrange(k, k + t.len() as int) =~= t);
}

/// Appends the HTML-escaped form of `s` to `out`.
fn push_escaped_html(out: &mut Vec<char>, s: &str)
    ensures
        final(out)@ == old(out)@ + html_esc(s@),
{
    let v = crate::text::chars_of(s);
    let mut i: usize = 0;
    while i < v.len()
        invariant
            i <= v@.len(),
            v@ == s@,
            out@ == old(out)@ + html_esc(s@.subrange(0, i as int)),
        decreases v@.len() - i,
    {
        let ghost prefix = s@.subrange(0, i as int);
        let c = v[i];
        if c == '&' {
            push_str_chars(out, "&amp;");
        } else if c == '<' {
            push_str_chars(out, "&lt;");
        } else if c == '>' {
            push_str_chars(out, "&gt;");
        } else if c == '"' {
            push_str_chars(out, "&quot;");
        } else if c == '\'' {
            push_str_chars(out, "&#39;");
        } else {
            out.push(c);
        }
        i = i + 1;
        proof {
            lemma_html_esc_append(prefix, seq![c]);
            lemma_html_esc_one(c);
            assert(prefix + seq![c] =~= s@.subrange(0, i as int));
            assert(out@ =~= old(out)@ + html_esc(s@.subrange(0, i as int)));
        }
    }
    proof {
        assert(s@.subrange(0, s@.len() as int) =~= s@);
    }
}

/// Appends one entry's list item to `out`.
#[verifier::rlimit(30)]
fn push_item(out: &mut Vec<char>, id: usize, e: &Entry)
    ensures
        final(out)@ == old(out)@ + item_html(id, e@),
{
    push_str_chars(out, "\n<li>\n<form method=\"POST\" action=\"/update/");
    let mut digits = fmt_id(id);
    out.append(&mut digits);
    push_str_chars(out, "\" id=\"update_");
    let mut digits = fmt_id(id);
    out.append(&mut digits);
    push_str_chars(out, "\">\n<input type=\"checkbox\" name=\"finished\" value=\"true\"");
    if e.finished {
        push_str_chars(out, " checked");
    }
    push_str_chars(out, ">\n<input required name=\"name\" form=\"update_");
    let mut digits = fmt_id(id);
    out.append(&mut digits);
    push_str_chars(out, "\" placeholder=\"Name\" value=\"");
    push_escaped_html(out, e.name.as_str());
    push_str_chars(out, "\">\n<input name=\"description\" form=\"update_");
    let mut digits = fmt_id(id);
    out.append(&mut digits);
    push_str_chars(out, "\" placeholder=\"Description\" value=\"");
    push_escaped_html(out, e.description.as_str());
    push_str_chars(
        out,
        "\" size=\"48\">\n<input type=\"radio\" name=\"command\" value=\"Delete\"> Delete\n<input type=\"radio\" name=\"command\" value=\"Update\"> Update\n<input name=\"commit\" form=\"update_",
    );
    let mut digits = fmt_id(id);
    out.append(&mut digits);
    push_str_chars(out, "\" type=\"submit\" value=\"Commit\">\n</form>\n</li>");
    proof {
        assert(out@ =~= old(out)@ + item_html(id, e@));
    }
}

/// Renders the whole todo list as an HTML page.
pub fn render(s: &EntrySet) -> (page: String)
    ensures
        page@ == page_html(s@),
{
    let n = s.len();
    let mut done: usize = 0;
    let mut i: usize = 0;
    while i < n
        invariant
            i <= n,
            n == s@.len(),
            done <= i,
            done as nat == done_count(s@.subrange(0, i as int)),
        decreases n - i,
    {
        let ghost prefix = s@.subrange(0, i as int);
        if s.entry_at(i).finished {
            done = done + 1;
        }
        i = i + 1;
        proof {
            assert(s@.subrange(0, i as int).drop_last() =~= prefix);
            assert(s@.subrange(0, i as int).last() == s@[i - 1]);
        }
    }
    proof {
        assert(s@.subrange(0, n as int) =~= s@);
    }

    let mut out: Vec<char> = Vec::new();
    push_str_chars(
        &mut out,
        "<!DOCTYPE html>\n<html lang=\"en\">\n<head>\n<meta charset=\"utf-8\" />\n<title>Todo | ",
    );
    push_str_chars(&mut out, "[");
    let mut digits = fmt_id(done);
    out.append(&mut digits);
    push_str_chars(&mut out, " / ");
    let mut digits = fmt_id(n);
    out.append(&mut digits);
    push_str_chars(&mut out, "]");
    push_str_chars(&mut out, "</title>\n</head>\n<body>\n<h1>Todo</h1>\n<ol>");
    let ghost head = tok_page_a() + title_text(done_count(s@), s@.len() as nat) + tok_page_b();
    proof {
        assert(out@ =~= head + items_html(s@.subrange(0, 0)));
    }

    let mut i: usize = 0;
    while i < n
        invariant
            i <= n,
            n == s@.len(),
            head == tok_page_a() + title_text(done_count(s@), s@.len() as nat) + tok_page_b(),
            out@ == head + items_html(s@.subrange(0, i as int)),
        decreases n - i,
    {
        let ghost prefix = s@.subrange(0, i as int);
        let id = s.id_at(i);
        let e = s.entry_at(i);
        push_item(&mut out, id, e);
        i = i + 1;
        proof {
            assert(s@.subrange(0, i as int).drop_last() =~= prefix);
            assert(s@.subrange(0, i as int).last() == s@[i - 1]);
            assert(out@ =~= head + items_html(s@.subrange(0, i as int)));
        }
    }
    push_str_chars(
        &mut out,
        "\n</ol>\n<form method=\"POST\" action=\"/new_entry\" id=\"new_entry\">\n<input type=\"submit\" value=\"New entry\">\n</form>\n</body>\n</html>",
    );
    proof {
        assert(s@.subrange(0, n as int) =~= s@);
        assert(out@ =~= page_html(s@));
    }
    string_from_chars(&out)
}

} // verus!
