//! The entry codec: one entry to and from one cookie value.
//!
//! The stored form is a field-tagged document,
//! `{"finished":BOOL,"name":"TEXT","description":"TEXT"}`, with `"` and
//! `\` escaped inside the quoted texts. `encode_spec` is the mathematical
//! writing, `decode_spec` the mathematical reading; `decode_spec` accepts
//! exactly the strings `encode_spec` produces, and `lemma_decode_encode`
//! proves the round trip.

use vstd::prelude::*;

use crate::entry::{Entry, EntryModel, ParseError};
use crate::text::{chars_of, push_str_chars, string_from_chars};

verus! {

/// Escaping of one character inside a quoted text.
pub open spec fn esc_char(c: char) -> Seq<char> {
    if c == '"' {
        seq!['\\', '"']
    } else if c == '\\' {
        seq!['\\', '\\']
    } else {
        seq![c]
    }
}

/// Escaping of a whole text.
pub open spec fn esc(s: Seq<char>) -> Seq<char>
    decreases s.len(),
{
    if s.len() == 0 {
        Seq::empty()
    } else {
        esc_char(s[0]) + esc(s.drop_first())
    }
}

/// Escaping a single character is `esc_char`.
pub proof fn lemma_esc_one(c: char)
    ensures
        esc(seq![c]) == esc_char(c),
{
    let s = seq![c];
    assert(s.len() == 1);
    assert(s[0] == c);
    assert(s.drop_first() =~= Seq::<char>::empty());
    assert(esc(s) == esc_char(c) + esc(s.drop_first()));
    assert(esc_char(c) + esc(s.drop_first()) =~= esc_char(c));
}

/// Escaping distributes over concatenation.
pub proof fn lemma_esc_append(a: Seq<char>, b: Seq<char>)
    ensures
        esc(a + b) == esc(a) + esc(b),
    decreases a.len(),
{
    if a.len() == 0 {
        assert(a + b =~= b);
        assert(esc(a) + esc(b) =~= esc(b));
    } else {
        assert((a + b).drop_first() =~= a.drop_first() + b);
        lemma_esc_append(a.drop_first(), b);
        assert(esc(a + b) =~= esc(a) + esc(b));
    }
}

/// The token that opens the document and tags the finished flag.
pub open spec fn tok_head() -> Seq<char> {
    "{\"finished\":"@
}

/// The token between the flag and the quoted name.
pub open spec fn tok_name() -> Seq<char> {
    ",\"name\":\""@
}

/// The token between the quoted name and the quoted description.
pub open spec fn tok_description() -> Seq<char> {
    "\",\"description\":\""@
}

/// The token that closes the document.
pub open spec fn tok_tail() -> Seq<char> {
    "\"}"@
}

/// The spelling of the finished flag.
pub open spec fn bool_text(b: bool) -> Seq<char> {
    if b {
        "true"@
    } else {
        "false"@
    }
}

/// The stored writing of an entry.
pub open spec fn encode_spec(m: EntryModel) -> Seq<char> {
    tok_head() + bool_text(m.finished) + tok_name() + esc(m.name) + tok_description()
        + esc(m.description) + tok_tail()
}

/// Consumes `l` from the front of `s`, or refuses.
pub open spec fn expect(s: Seq<char>, l: Seq<char>) -> Option<Seq<char>> {
    if l.len() <= s.len() && s.subrange(0, l.len() as int) == l {
        Some(s.skip(l.len() as int))
    } else {
        None
    }
}

/// Consuming a token from a string that starts with it leaves the rest.
pub proof fn lemma_expect_concat(l: Seq<char>, r: Seq<char>)
    ensures
        expect(l + r, l) == Some(r),
{
    assert((l + r).subrange(0, l.len() as int) =~= l);
    assert((l + r).skip(l.len() as int) =~= r);
}

/// Reads the finished flag's spelling from the front of `s`.
pub open spec fn parse_bool(s: Seq<char>) -> Option<(bool, Seq<char>)> {
    match expect(s, "true"@) {
        Some(r) => Some((true, r)),
        None => match expect(s, "false"@) {
            Some(r) => Some((false, r)),
            None => None,
        },
    }
}

/// Reads a quoted text's body from the front of `s`, undoing the escapes,
/// up to but not past the closing quote. Refuses an unterminated body and
/// any escape other than the two the writing uses.
pub open spec fn parse_text(s: Seq<char>) -> Option<(Seq<char>, Seq<char>)>
    decreases s.len(),
{
    if s.len() == 0 {
        None
    } else if s[0] == '"' {
        Some((Seq::empty(), s))
    } else if s[0] == '\\' {
        if s.len() >= 2 && (s[1] == '"' || s[1] == '\\') {
            match parse_text(s.skip(2)) {
                Some(p) => Some((seq![s[1]] + p.0, p.1)),
                None => None,
            }
        } else {
            None
        }
    } else {
        match parse_text(s.skip(1)) {
            Some(p) => Some((seq![s[0]] + p.0, p.1)),
            None => None,
        }
    }
}

/// The mathematical reading of a stored entry: accepts exactly the
/// writings `encode_spec` produces.
pub open spec fn decode_spec(s: Seq<char>) -> Option<EntryModel> {
    match expect(s, tok_head()) {
        None => None,
        Some(r1) => match parse_bool(r1) {
            None => None,
            Some((finished, r2)) => match expect(r2, tok_name()) {
                None => None,
                Some(r3) => match parse_text(r3) {
                    None => None,
                    Some((name, r4)) => match expect(r4, tok_description()) {
                        None => None,
                        Some(r5) => match parse_text(r5) {
                            None => None,
                            Some((description, r6)) => match expect(r6, tok_tail()) {
                                Some(r7) => if r7.len() == 0 {
                                    Some(EntryModel { finished, name, description })
                                } else {
                                    None
                                },
                                None => None,
                            },
                        },
                    },
                },
            },
        },
    }
}

/// Reading an escaped text followed by a quote gives the text back and
/// stops at the quote.
pub proof fn lemma_parse_esc(x: Seq<char>, rest: Seq<char>)
    requires
        rest.len() >= 1,
        rest[0] == '"',
    ensures
        parse_text(esc(x) + rest) == Some((x, rest)),
    decreases x.len(),
{
    let s = esc(x) + rest;
    if x.len() == 0 {
        assert(s =~= rest);
    } else {
        lemma_parse_esc(x.drop_first(), rest);
        let c = x[0];
        if c == '"' || c == '\\' {
            assert(s[0] == '\\' && s[1] == c);
            assert(s.skip(2) =~= esc(x.drop_first()) + rest);
            assert(seq![c] + x.drop_first() =~= x);
        } else {
            assert(s[0] == c);
            assert(s.skip(1) =~= esc(x.drop_first()) + rest);
            assert(seq![c] + x.drop_first() =~= x);
        }
    }
}

/// Round trip: reading any entry's writing gives the entry back.
pub proof fn lemma_decode_encode(m: EntryModel)
    ensures
        decode_spec(encode_spec(m)) == Some(m),
{
    let s = encode_spec(m);
    let after_head = bool_text(m.finished) + tok_name() + esc(m.name) + tok_description()
        + esc(m.description) + tok_tail();
    assert(s =~= tok_head() + after_head);
    lemma_expect_concat(tok_head(), after_head);

    let after_bool = tok_name() + esc(m.name) + tok_description() + esc(m.description)
        + tok_tail();
    assert(after_head =~= bool_text(m.finished) + after_bool);
    if m.finished {
        lemma_expect_concat("true"@, after_bool);
    } else {
        lemma_expect_concat("false"@, after_bool);
        reveal_strlit("true");
        reveal_strlit("false");
        assert(after_head[0] == 'f');
        assert(expect(after_head, "true"@) is None);
    }
    assert(parse_bool(after_head) == Some((m.finished, after_bool)));

    let after_name_tok = esc(m.name) + tok_description() + esc(m.description) + tok_tail();
    assert(after_bool =~= tok_name() + after_name_tok);
    lemma_expect_concat(tok_name(), after_name_tok);

    let after_name = tok_description() + esc(m.description) + tok_tail();
    assert(after_name_tok =~= esc(m.name) + after_name);
    reveal_strlit("\",\"description\":\"");
    assert(after_name[0] == '"');
    lemma_parse_esc(m.name, after_name);

    let after_desc_tok = esc(m.description) + tok_tail();
    assert(after_name =~= tok_description() + after_desc_tok);
    lemma_expect_concat(tok_description(), after_desc_tok);

    let after_desc = tok_tail();
    assert(after_desc_tok =~= esc(m.description) + after_desc);
    reveal_strlit("\"}");
    assert(after_desc[0] == '"');
    lemma_parse_esc(m.description, after_desc);

    lemma_expect_concat(tok_tail(), Seq::empty());
    assert(after_desc =~= tok_tail() + Seq::<char>::empty());
}

/// Appends the escaped form of `s` to `out`.
fn push_escaped(out: &mut Vec<char>, s: &str)
    ensures
        final(out)@ == old(out)@ + esc(s@),
{
    let v = chars_of(s);
    let mut i: usize = 0;
    while i < v.len()
        invariant
            i <= v@.len(),
            v@ == s@,
            out@ == old(out)@ + esc(s@.subrange(0, i as int)),
        decreases v@.len() - i,
    {
        let ghost prefix = s@.subrange(0, i as int);
        let c = v[i];
        if c == '"' {
            out.push('\\');
            out.push('"');
        } else if c == '\\' {
            out.push('\\');
            out.push('\\');
        } else {
            out.push(c);
        }
        i = i + 1;
        proof {
            lemma_esc_append(prefix, seq![c]);
            lemma_esc_one(c);
            assert(prefix + seq![c] =~= s@.subrange(0, i as int));
            assert(out@ =~= old(out)@ + esc(s@.subrange(0, i as int)));
        }
    }
    proof {
        assert(s@.subrange(0, s@.len() as int) =~= s@);
    }
}

/// Writes an entry as a cookie value.
pub fn encode(e: &Entry) -> (r: String)
    ensures
        r@ == encode_spec(e@),
{
    let mut out: Vec<char> = Vec::new();
    push_str_chars(&mut out, "{\"finished\":");
    if e.finished {
        push_str_chars(&mut out, "true");
    } else {
        push_str_chars(&mut out, "false");
    }
    push_str_chars(&mut out, ",\"name\":\"");
    push_escaped(&mut out, e.name.as_str());
    push_str_chars(&mut out, "\",\"description\":\"");
    push_escaped(&mut out, e.description.as_str());
    push_str_chars(&mut out, "\"}");
    proof {
        assert(out@ =~= encode_spec(e@));
    }
    string_from_chars(&out)
}

/// Consumes the token `l` at position `i` of `v`, or refuses.
fn expect_at(v: &Vec<char>, i: usize, l: &str) -> (r: Option<usize>)
    requires
        i <= v@.len(),
    ensures
        match r {
            Some(k) => i <= k <= v@.len() && expect(v@.skip(i as int), l@) == Some(
                v@.skip(k as int),
            ),
            None => expect(v@.skip(i as int), l@) is None,
        },
{
    let lv = chars_of(l);
    let ghost s = v@.skip(i as int);
    if v.len() - i < lv.len() {
        return None;
    }
    let mut j: usize = 0;
    proof {
        assert(s.subrange(0, 0) =~= l@.subrange(0, 0));
    }
    while j < lv.len()
        invariant
            j <= lv@.len(),
            lv@ == l@,
            i <= v@.len(),
            v@.len() <= usize::MAX,
            i + lv@.len() <= v@.len(),
            s == v@.skip(i as int),
            s.subrange(0, j as int) == l@.subrange(0, j as int),
        decreases lv@.len() - j,
    {
        proof {
            assert(i + j < v@.len());
        }
        if v[i + j] != lv[j] {
            proof {
                assert(s[j as int] == v@[i + j]);
                assert(s.subrange(0, l@.len() as int)[j as int] == s[j as int]);
                assert(l@[j as int] != s[j as int]);
            }
            return None;
        }
        j = j + 1;
        proof {
            assert(s.subrange(0, j as int) =~= s.subrange(0, j as int - 1).push(s[j - 1]));
            assert(l@.subrange(0, j as int) =~= l@.subrange(0, j as int - 1).push(l@[j - 1]));
        }
    }
    proof {
        assert(s.subrange(0, l@.len() as int) == l@);
        assert(s.skip(l@.len() as int) =~= v@.skip(i + l@.len()));
    }
    Some(i + lv.len())
}

/// A text read that stopped at `t` after having gathered `acc`.
pub open spec fn text_step(acc: Seq<char>, t: Option<(Seq<char>, Seq<char>)>) -> Option<
    (Seq<char>, Seq<char>),
> {
    match t {
        Some(p) => Some((acc + p.0, p.1)),
        None => None,
    }
}

/// Reads a quoted text's body starting at position `i` of `v`, undoing the
/// escapes, stopping before the closing quote.
fn parse_text_at(v: &Vec<char>, i: usize) -> (r: Option<(Vec<char>, usize)>)
    requires
        i <= v@.len(),
    ensures
        match r {
            Some(p) => i <= p.1 <= v@.len() && parse_text(v@.skip(i as int)) == Some(
                (p.0@, v@.skip(p.1 as int)),
            ),
            None => parse_text(v@.skip(i as int)) is None,
        },
{
    let mut out: Vec<char> = Vec::new();
    let mut j: usize = i;
    proof {
        assert(Seq::<char>::empty() + parse_text(v@.skip(i as int)).unwrap().0 =~= parse_text(
            v@.skip(i as int),
        ).unwrap().0);
    }
    loop
        invariant
            i <= j <= v@.len(),
            parse_text(v@.skip(i as int)) == text_step(out@, parse_text(v@.skip(j as int))),
        decreases v@.len() - j,
    {
        let ghost suffix = v@.skip(j as int);
        let ghost acc = out@;
        if j >= v.len() {
            proof {
                assert(suffix.len() == 0);
            }
            return None;
        }
        let c = v[j];
        proof {
            assert(suffix[0] == c);
        }
        if c == '"' {
            proof {
                assert(parse_text(suffix) == Some((Seq::<char>::empty(), suffix)));
                assert(acc + Seq::<char>::empty() =~= acc);
            }
            return Some((out, j));
        } else if c == '\\' {
            if j + 1 >= v.len() {
                proof {
                    assert(suffix.len() < 2);
                }
                return None;
            }
            let d = v[j + 1];
            proof {
                assert(suffix[1] == d);
            }
            if d == '"' || d == '\\' {
                out.push(d);
                j = j + 2;
                proof {
                    assert(suffix.skip(2) =~= v@.skip(j as int));
                    assert(parse_text(suffix) == text_step(
                        seq![d],
                        parse_text(v@.skip(j as int)),
                    ));
                    if parse_text(v@.skip(j as int)) is Some {
                        let p = parse_text(v@.skip(j as int)).unwrap();
                        assert(acc + (seq![d] + p.0) =~= out@ + p.0);
                    }
                }
            } else {
                return None;
            }
        } else {
            out.push(c);
            j = j + 1;
            proof {
                assert(suffix.skip(1) =~= v@.skip(j as int));
                assert(parse_text(suffix) == text_step(seq![c], parse_text(v@.skip(j as int))));
                if parse_text(v@.skip(j as int)) is Some {
                    let p = parse_text(v@.skip(j as int)).unwrap();
                    assert(acc + (seq![c] + p.0) =~= out@ + p.0);
                }
            }
        }
    }
}

/// Reads a cookie value as an entry. Succeeds exactly on the strings
/// `encode` produces.
pub fn decode(s: &str) -> (r: Result<Entry, ParseError>)
    ensures
        match r {
            Ok(e) => decode_spec(s@) == Some(e@),
            Err(pe) => decode_spec(s@) is None && pe == ParseError::InvalidEntry,
        },
{
    let v = chars_of(s);
    proof {
        assert(v@.skip(0) =~= s@);
    }
    let i1 = match expect_at(&v, 0, "{\"finished\":") {
        Some(k) => k,
        None => {
            return Err(ParseError::InvalidEntry);
        },
    };
    let (finished, i2) = match expect_at(&v, i1, "true") {
        Some(k) => (true, k),
        None => match expect_at(&v, i1, "false") {
            Some(k) => (false, k),
            None => {
                return Err(ParseError::InvalidEntry);
            },
        },
    };
    let i3 = match expect_at(&v, i2, ",\"name\":\"") {
        Some(k) => k,
        None => {
            return Err(ParseError::InvalidEntry);
        },
    };
    let (name, i4) = match parse_text_at(&v, i3) {
        Some(p) => p,
        None => {
            return Err(ParseError::InvalidEntry);
        },
    };
    let i5 = match expect_at(&v, i4, "\",\"description\":\"") {
        Some(k) => k,
        None => {
            return Err(ParseError::InvalidEntry);
        },
    };
    let (description, i6) = match parse_text_at(&v, i5) {
        Some(p) => p,
        None => {
            return Err(ParseError::InvalidEntry);
        },
    };
    let i7 = match expect_at(&v, i6, "\"}") {
        Some(k) => k,
        None => {
            return Err(ParseError::InvalidEntry);
        },
    };
    if i7 != v.len() {
        proof {
            assert(v@.skip(i7 as int).len() > 0);
        }
        return Err(ParseError::InvalidEntry);
    }
    proof {
        assert(v@.skip(i7 as int).len() == 0);
    }
    let e = Entry {
        finished,
        name: string_from_chars(&name),
        description: string_from_chars(&description),
    };
    Ok(e)
}

} // verus!
