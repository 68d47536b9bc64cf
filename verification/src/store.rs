//! The entry store: the todo list read out of a cookie jar.
//!
//! `load_all` rebuilds the list from every cookie of the jar — the cookie's
//! name read as a decimal entry id, its value read by the codec — and fails
//! on the first cookie that does not parse. `store` and `remove` rewrite
//! the jar one cookie at a time. The rebuilt list, an `EntrySet`, keeps its
//! entries in ascending id order whatever order the cookies came in;
//! `set_map` is its reading as a finite map from id to entry.

use vstd::prelude::*;

use crate::codec::{decode, decode_spec, encode, encode_spec};
use crate::entry::{Entry, EntryModel, ParseError};
use crate::jar::{CookieJar, JarView, jar_remove, jar_set};
use crate::text::{all_digits, chars_of, dec_rep, dec_val, fmt_id, parse_id, string_from_chars};
use vstd::pervasive::VecAdditionalExecFns;

verus! {

/// The entries of one client, ascending by id.
#[derive(Debug)]
pub struct EntrySet {
    items: Vec<(usize, Entry)>,
}

impl View for EntrySet {
    type V = Seq<(usize, EntryModel)>;

    closed spec fn view(&self) -> Seq<(usize, EntryModel)> {
        Seq::new(self.items@.len(), |i: int| (self.items@[i].0, self.items@[i].1@))
    }
}

/// Ids strictly ascend along the sequence.
pub open spec fn ids_ascending(s: Seq<(usize, EntryModel)>) -> bool {
    forall|i: int, j: int| 0 <= i < j < s.len() ==> s[i].0 < s[j].0
}

/// The sequence read as a map from id to entry.
pub open spec fn set_map(s: Seq<(usize, EntryModel)>) -> Map<int, EntryModel>
    decreases s.len(),
{
    if s.len() == 0 {
        Map::empty()
    } else {
        set_map(s.drop_last()).insert(s.last().0 as int, s.last().1)
    }
}

/// What `set_map` holds: exactly the ids on the sequence, each with its
/// entry — provided no id repeats.
pub proof fn lemma_set_map_characterize(s: Seq<(usize, EntryModel)>)
    requires
        forall|i: int, j: int| 0 <= i < j < s.len() ==> s[i].0 != s[j].0,
    ensures
        forall|k: int|
            set_map(s).contains_key(k) <==> exists|i: int| 0 <= i < s.len() && s[i].0 == k,
        forall|i: int|
            0 <= i < s.len() ==> set_map(s).contains_key(s[i].0 as int) && set_map(s)[(
            #[trigger] s[i]).0 as int] == s[i].1,
    decreases s.len(),
{
    if s.len() > 0 {
        let dl = s.drop_last();
        assert(forall|i: int| 0 <= i < dl.len() ==> dl[i] == s[i]);
        lemma_set_map_characterize(dl);
        assert forall|k: int| set_map(s).contains_key(k) implies exists|i: int|
            0 <= i < s.len() && s[i].0 == k by {
            if k != s.last().0 as int {
                assert(set_map(dl).contains_key(k));
                assert(exists|i: int| 0 <= i < dl.len() && dl[i].0 == k);
                let i = choose|i: int| 0 <= i < dl.len() && dl[i].0 == k;
                assert(s[i].0 == k);
            } else {
                assert(s[s.len() - 1].0 == k);
            }
        }
        assert forall|i: int| 0 <= i < s.len() implies set_map(s).contains_key(s[i].0 as int)
            && set_map(s)[s[i].0 as int] == s[i].1 by {
            if i < s.len() - 1 {
                assert(s[i].0 != s.last().0);
            } else {
                assert(s[i] == s.last());
            }
        }
    }
}

/// Two ascending sequences reading as one map are one sequence.
pub proof fn lemma_ascending_unique(a: Seq<(usize, EntryModel)>, b: Seq<(usize, EntryModel)>)
    requires
        ids_ascending(a),
        ids_ascending(b),
        set_map(a) == set_map(b),
    ensures
        a == b,
    decreases a.len(),
{
    lemma_set_map_characterize(a);
    lemma_set_map_characterize(b);
    if a.len() == 0 {
        if b.len() > 0 {
            assert(set_map(b).contains_key(b[b.len() - 1].0 as int));
        }
        assert(a =~= b);
    } else {
        assert(b.len() > 0) by {
            assert(set_map(a).contains_key(a[a.len() - 1].0 as int));
        }
        let ka = a.last().0;
        let kb = b.last().0;
        assert(ka <= kb) by {
            assert(set_map(b).contains_key(ka as int));
            let i = choose|i: int| 0 <= i < b.len() && b[i].0 == ka;
            assert(i < b.len() - 1 ==> b[i].0 < kb);
        }
        assert(kb <= ka) by {
            assert(set_map(a).contains_key(kb as int));
            let i = choose|i: int| 0 <= i < a.len() && a[i].0 == kb;
            assert(i < a.len() - 1 ==> a[i].0 < ka);
        }
        assert(a.last().1 == set_map(a)[ka as int]);
        assert(b.last().1 == set_map(b)[kb as int]);
        assert(a.last() == b.last());
        let da = a.drop_last();
        let db = b.drop_last();
        assert(forall|i: int| 0 <= i < da.len() ==> da[i] == a[i]);
        assert(forall|i: int| 0 <= i < db.len() ==> db[i] == b[i]);
        lemma_set_map_characterize(da);
        lemma_set_map_characterize(db);
        assert(set_map(da) =~= set_map(db)) by {
            assert forall|k: int| set_map(da).contains_key(k) implies set_map(db).contains_key(
                k,
            ) && set_map(da)[k] == set_map(db)[k] by {
                let i = choose|i: int| 0 <= i < da.len() && da[i].0 == k;
                assert(a[i].0 == k && a[i].0 < ka);
                assert(set_map(b).contains_key(k));
                let j = choose|j: int| 0 <= j < b.len() && b[j].0 == k;
                assert(j < b.len() - 1) by {
                    assert(b[b.len() - 1].0 == kb);
                }
                assert(db[j].0 == k);
                assert(set_map(da)[k] == a[i].1);
                assert(a[i].1 == set_map(a)[k]);
                assert(set_map(db)[k] == b[j].1);
                assert(b[j].1 == set_map(b)[k]);
            }
            assert forall|k: int| set_map(db).contains_key(k) implies set_map(da).contains_key(
                k,
            ) by {
                let j = choose|j: int| 0 <= j < db.len() && db[j].0 == k;
                assert(b[j].0 == k && b[j].0 < kb);
                assert(set_map(a).contains_key(k));
                let i = choose|i: int| 0 <= i < a.len() && a[i].0 == k;
                assert(i < a.len() - 1) by {
                    assert(a[a.len() - 1].0 == ka);
                }
                assert(da[i].0 == k);
            }
        }
        lemma_ascending_unique(da, db);
        assert(a =~= b) by {
            assert(da =~= db);
            assert(forall|i: int| 0 <= i < a.len() - 1 ==> a[i] == da[i] && b[i] == db[i]);
        }
    }
}

impl EntrySet {
    /// The set is well formed: entries ascend by id.
    pub open spec fn wf(&self) -> bool {
        ids_ascending(self@)
    }

    /// An empty set.
    pub fn new() -> (s: EntrySet)
        ensures
            s.wf(),
            s@ == Seq::<(usize, EntryModel)>::empty(),
            set_map(s@) == Map::<int, EntryModel>::empty(),
    {
        let s = EntrySet { items: Vec::new() };
        proof {
            assert(s@ =~= Seq::<(usize, EntryModel)>::empty());
        }
        s
    }

    /// How many entries the set holds.
    pub fn len(&self) -> (n: usize)
        ensures
            n == self@.len(),
    {
        self.items.len()
    }

    /// The id of the entry at position `i`.
    pub fn id_at(&self, i: usize) -> (id: usize)
        requires
            i < self@.len(),
        ensures
            id == self@[i as int].0,
    {
        self.items[i].0
    }

    /// The entry at position `i`.
    pub fn entry_at(&self, i: usize) -> (e: &Entry)
        requires
            i < self@.len(),
        ensures
            e@ == self@[i as int].1,
    {
        &self.items[i].1
    }

    /// Puts `e` at `id`, overwriting any entry already there; the order
    /// stays ascending.
    pub fn insert(&mut self, id: usize, e: Entry)
        requires
            old(self).wf(),
        ensures
            final(self).wf(),
            set_map(final(self)@) == set_map(old(self)@).insert(id as int, e@),
    {
        let mut i: usize = 0;
        while i < self.items.len() && self.items[i].0 < id
            invariant
                i <= self@.len(),
                self@.len() == self.items@.len(),
                self == old(self),
                old(self).wf(),
                forall|j: int| 0 <= j < i ==> self@[j].0 < id,
            decreases self@.len() - i,
        {
            i = i + 1;
        }
        let ghost s = old(self)@;
        proof {
            assert(i == s.len() || s[i as int].0 >= id);
        }
        if i < self.items.len() && self.items[i].0 == id {
            self.items.set(i, (id, e));
            proof {
                let u = self@;
                assert(u =~= s.update(i as int, (id, e@)));
                assert(final(self).wf()) by {
                    assert(forall|x: int, y: int|
                        0 <= x < y < u.len() ==> u[x].0 == s[x].0 && u[y].0 == s[y].0);
                }
                lemma_set_map_characterize(s);
                lemma_set_map_characterize(u);
                assert(set_map(u) =~= set_map(s).insert(id as int, e@)) by {
                    assert(u[i as int].0 == id);
                    assert forall|k: int| set_map(u).contains_key(k) implies set_map(s).insert(
                        id as int,
                        e@,
                    ).contains_key(k) && set_map(u)[k] == set_map(s).insert(id as int, e@)[k] by {
                        let x = choose|x: int| 0 <= x < u.len() && u[x].0 == k;
                        if k == id {
                            assert(x == i) by {
                                if x != i {
                                    assert(s[x].0 == u[x].0 && s[i as int].0 == id);
                                }
                            }
                            assert(set_map(u)[k] == u[i as int].1);
                        } else {
                            assert(x != i);
                            assert(s[x].0 == k);
                            assert(set_map(u)[k] == u[x].1 && u[x].1 == s[x].1);
                            assert(set_map(s)[k] == s[x].1);
                        }
                    }
                    assert forall|k: int| set_map(s).insert(id as int, e@).contains_key(
                        k,
                    ) implies set_map(u).contains_key(k) by {
                        if k == id {
                            assert(u[i as int].0 == k);
                        } else {
                            let x = choose|x: int| 0 <= x < s.len() && s[x].0 == k;
                            assert(u[x].0 == k);
                        }
                    }
                }
            }
        } else {
            proof {
                assert(forall|j: int| i <= j < s.len() ==> s[j].0 > id);
            }
            self.items.insert(i, (id, e));
            proof {
                let u = self@;
                assert(u.len() == s.len() + 1);
                assert(u[i as int] == (id, e@));
                assert(forall|j: int| 0 <= j < i ==> u[j] == s[j]);
                assert(forall|j: int| i < j < u.len() ==> u[j] == s[j - 1]);
                assert(final(self).wf()) by {
                    assert forall|x: int, y: int| 0 <= x < y < u.len() implies u[x].0
                        < u[y].0 by {
                        if x < i && y > i {
                            assert(u[x].0 == s[x].0 && u[y].0 == s[y - 1].0);
                        }
                    }
                }
                lemma_set_map_characterize(s);
                assert(forall|x: int, y: int| 0 <= x < y < u.len() ==> u[x].0 != u[y].0);
                lemma_set_map_characterize(u);
                assert(set_map(u) =~= set_map(s).insert(id as int, e@)) by {
                    assert forall|k: int| set_map(u).contains_key(k) implies set_map(s).insert(
                        id as int,
                        e@,
                    ).contains_key(k) && set_map(u)[k] == set_map(s).insert(id as int, e@)[k] by {
                        let x = choose|x: int| 0 <= x < u.len() && u[x].0 == k;
                        if k == id {
                            assert(set_map(u)[k] == u[i as int].1);
                        } else {
                            assert(x != i);
                            let y: int = if x < i {
                                x
                            } else {
                                x - 1
                            };
                            assert(s[y].0 == k);
                            assert(set_map(u)[k] == u[x].1 && u[x].1 == s[y].1);
                            assert(set_map(s)[k] == s[y].1);
                        }
                    }
                    assert forall|k: int| set_map(s).insert(id as int, e@).contains_key(
                        k,
                    ) implies set_map(u).contains_key(k) by {
                        if k == id {
                            assert(u[i as int].0 == k);
                        } else {
                            let x = choose|x: int| 0 <= x < s.len() && s[x].0 == k;
                            let y: int = if x < i {
                                x
                            } else {
                                x + 1
                            };
                            assert(u[y].0 == k);
                        }
                    }
                }
            }
        }
    }

    /// The entry at `id`, if the set holds one.
    pub fn get(&self, id: usize) -> (r: Option<&Entry>)
        requires
            self.wf(),
        ensures
            match r {
                Some(e) => set_map(self@).contains_key(id as int) && e@ == set_map(
                    self@,
                ).index(id as int),
                None => !set_map(self@).contains_key(id as int),
            },
    {
        proof {
            lemma_set_map_characterize(self@);
        }
        let mut i: usize = 0;
        while i < self.items.len()
            invariant
                i <= self@.len(),
                self@.len() == self.items@.len(),
                self.wf(),
                forall|j: int| 0 <= j < i ==> self@[j].0 != id,
            decreases self@.len() - i,
        {
            if self.items[i].0 == id {
                proof {
                    lemma_set_map_characterize(self@);
                    assert(self@[i as int].0 == id);
                }
                return Some(&self.items[i].1);
            }
            i = i + 1;
        }
        proof {
            lemma_set_map_characterize(self@);
        }
        None
    }
}

/// The cookie's name reads as an entry id.
pub open spec fn cookie_id_ok(name: Seq<char>) -> bool {
    name.len() > 0 && all_digits(name) && dec_val(name) <= usize::MAX
}

/// The cookie parses: its name as an id, its value as an entry.
pub open spec fn cookie_ok(c: (Seq<char>, Seq<char>)) -> bool {
    cookie_id_ok(c.0) && decode_spec(c.1) is Some
}

/// Every cookie of the jar parses.
pub open spec fn jar_parses(v: JarView) -> bool {
    forall|i: int| 0 <= i < v.len() ==> cookie_ok(#[trigger] v[i])
}

/// The failure the first unparsable cookie raises.
pub open spec fn first_error(v: JarView) -> ParseError
    decreases v.len(),
{
    if v.len() == 0 {
        ParseError::InvalidId
    } else if !cookie_id_ok(v[0].0) {
        ParseError::InvalidId
    } else if decode_spec(v[0].1) is None {
        ParseError::InvalidEntry
    } else {
        first_error(v.drop_first())
    }
}

/// Where the cookies before `i` parse and the one at `i` does not, the
/// first failure is the one at `i`.
pub proof fn lemma_first_error_at(v: JarView, i: int)
    requires
        0 <= i < v.len(),
        forall|j: int| 0 <= j < i ==> cookie_ok(#[trigger] v[j]),
        !cookie_ok(v[i]),
    ensures
        first_error(v) == if !cookie_id_ok(v[i].0) {
            ParseError::InvalidId
        } else {
            ParseError::InvalidEntry
        },
    decreases v.len(),
{
    if i > 0 {
        assert(cookie_ok(v[0]));
        let d = v.drop_first();
        assert(forall|j: int| 0 <= j < d.len() ==> d[j] == v[j + 1]);
        lemma_first_error_at(d, i - 1);
    }
}

/// The jar read as a map from id to entry; of two cookies naming one id,
/// the later wins.
pub open spec fn jar_map(v: JarView) -> Map<int, EntryModel>
    decreases v.len(),
{
    if v.len() == 0 {
        Map::empty()
    } else {
        let m = jar_map(v.drop_last());
        let c = v.last();
        if cookie_ok(c) {
            m.insert(dec_val(c.0) as int, decode_spec(c.1).unwrap())
        } else {
            m
        }
    }
}

/// Rebuilds the whole todo list from the jar: every cookie's name read as
/// an id, its value read by the codec; the first failure aborts the read.
pub fn load_all(jar: &CookieJar) -> (r: Result<EntrySet, ParseError>)
    ensures
        match r {
            Ok(s) => s.wf() && jar_parses(jar@) && set_map(s@) == jar_map(jar@),
            Err(pe) => !jar_parses(jar@) && pe == first_error(jar@),
        },
{
    let mut es = EntrySet::new();
    let n = jar.len();
    let mut i: usize = 0;
    while i < n
        invariant
            i <= n,
            n == jar@.len(),
            es.wf(),
            forall|j: int| 0 <= j < i ==> cookie_ok(#[trigger] jar@[j]),
            set_map(es@) == jar_map(jar@.subrange(0, i as int)),
        decreases n - i,
    {
        let ghost c = jar@[i as int];
        let name = chars_of(jar.name_at(i).as_str());
        proof {
            assert(name@ == c.0);
        }
        match parse_id(&name) {
            None => {
                proof {
                    assert(!cookie_id_ok(c.0));
                    lemma_first_error_at(jar@, i as int);
                }
                return Err(ParseError::InvalidId);
            },
            Some(id) => {
                match decode(jar.value_at(i).as_str()) {
                    Err(_) => {
                        proof {
                            assert(decode_spec(c.1) is None);
                            lemma_first_error_at(jar@, i as int);
                        }
                        return Err(ParseError::InvalidEntry);
                    },
                    Ok(e) => {
                        proof {
                            assert(cookie_ok(c));
                            assert(jar@.subrange(0, i as int + 1).drop_last() =~= jar@.subrange(
                                0,
                                i as int,
                            ));
                            assert(jar@.subrange(0, i as int + 1).last() == c);
                        }
                        es.insert(id, e);
                        i = i + 1;
                    },
                }
            },
        }
    }
    proof {
        assert(jar@.subrange(0, n as int) =~= jar@);
    }
    Ok(es)
}

/// Writes `e` into the jar as the cookie of `id`.
pub fn store(jar: &mut CookieJar, id: usize, e: &Entry)
    requires
        old(jar).wf(),
    ensures
        final(jar).wf(),
        final(jar)@ == jar_set(old(jar)@, dec_rep(id as nat), encode_spec(e@)),
{
    let name = string_from_chars(&fmt_id(id));
    let value = encode(e);
    jar.set(name, value);
}

/// Deletes the cookie of `id` from the jar; says whether one was there.
pub fn remove(jar: &mut CookieJar, id: usize) -> (r: bool)
    requires
        old(jar).wf(),
    ensures
        final(jar).wf(),
        final(jar)@ == jar_remove(old(jar)@, dec_rep(id as nat)),
        r == crate::jar::has_name(old(jar)@, dec_rep(id as nat)),
{
    let name = string_from_chars(&fmt_id(id));
    jar.remove(&name)
}

} // verus!
