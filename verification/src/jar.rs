//! The cookie jar: the client-supplied name/value pairs of one request.
//!
//! The jar is the only store the system has. A well-formed jar never
//! carries two cookies of one name; `set` and `remove` keep it so.
//! `jar_set` and `jar_remove` are the mathematical forms of the two
//! rewritings, stated over the jar's view.

use vstd::prelude::*;
use vstd::pervasive::VecAdditionalExecFns;

verus! {

/// A jar's view: the cookies as (name, value) character sequences, in the
/// order the client sent them.
pub type JarView = Seq<(Seq<char>, Seq<char>)>;

/// No two cookies share a name.
pub open spec fn names_distinct(v: JarView) -> bool {
    forall|i: int, j: int| 0 <= i < j < v.len() ==> v[i].0 != v[j].0
}

/// Some cookie carries the name `n`.
pub open spec fn has_name(v: JarView, n: Seq<char>) -> bool {
    exists|i: int| 0 <= i < v.len() && v[i].0 == n
}

/// The value of the first cookie named `n`, if any.
pub open spec fn lookup(v: JarView, n: Seq<char>) -> Option<Seq<char>>
    decreases v.len(),
{
    if v.len() == 0 {
        None
    } else if v[0].0 == n {
        Some(v[0].1)
    } else {
        lookup(v.drop_first(), n)
    }
}

/// Where the name stands at `i` and nowhere earlier, `lookup` finds the
/// value at `i`.
pub proof fn lemma_lookup_at(v: JarView, n: Seq<char>, i: int)
    requires
        0 <= i < v.len(),
        v[i].0 == n,
        forall|j: int| 0 <= j < i ==> v[j].0 != n,
    ensures
        lookup(v, n) == Some(v[i].1),
    decreases v.len(),
{
    if i > 0 {
        let d = v.drop_first();
        assert(forall|j: int| 0 <= j < d.len() ==> d[j] == v[j + 1]);
        lemma_lookup_at(d, n, i - 1);
    }
}

/// Where the name is absent, `lookup` finds nothing.
pub proof fn lemma_lookup_missing(v: JarView, n: Seq<char>)
    requires
        !has_name(v, n),
    ensures
        lookup(v, n) is None,
    decreases v.len(),
{
    if v.len() > 0 {
        assert(v[0].0 != n);
        let d = v.drop_first();
        assert(forall|j: int| 0 <= j < d.len() ==> d[j] == v[j + 1]);
        assert(!has_name(d, n));
        lemma_lookup_missing(d, n);
    }
}

/// The jar after setting the cookie named `n` to `val`: rewritten in place
/// where the name is present, appended where it is not.
pub open spec fn jar_set(v: JarView, n: Seq<char>, val: Seq<char>) -> JarView
    decreases v.len(),
{
    if v.len() == 0 {
        seq![(n, val)]
    } else if v[0].0 == n {
        seq![(n, val)] + v.drop_first()
    } else {
        seq![v[0]] + jar_set(v.drop_first(), n, val)
    }
}

/// The jar after removing every cookie named `n`.
pub open spec fn jar_remove(v: JarView, n: Seq<char>) -> JarView
    decreases v.len(),
{
    if v.len() == 0 {
        Seq::empty()
    } else if v[0].0 == n {
        jar_remove(v.drop_first(), n)
    } else {
        seq![v[0]] + jar_remove(v.drop_first(), n)
    }
}

/// Where the name stands at `i` and nowhere earlier, `jar_set` rewrites
/// index `i` alone.
pub proof fn lemma_jar_set_found(v: JarView, n: Seq<char>, val: Seq<char>, i: int)
    requires
        0 <= i < v.len(),
        v[i].0 == n,
        forall|j: int| 0 <= j < i ==> v[j].0 != n,
    ensures
        jar_set(v, n, val) == v.update(i, (n, val)),
    decreases v.len(),
{
    if i == 0 {
        assert(seq![(n, val)] + v.drop_first() =~= v.update(0, (n, val)));
    } else {
        assert(v.drop_first()[i - 1].0 == n);
        lemma_jar_set_found(v.drop_first(), n, val, i - 1);
        assert(seq![v[0]] + v.drop_first().update(i - 1, (n, val)) =~= v.update(i, (n, val)));
    }
}

/// Where the name is absent, `jar_set` appends.
pub proof fn lemma_jar_set_missing(v: JarView, n: Seq<char>, val: Seq<char>)
    requires
        !has_name(v, n),
    ensures
        jar_set(v, n, val) == v.push((n, val)),
    decreases v.len(),
{
    if v.len() == 0 {
        assert(seq![(n, val)] =~= v.push((n, val)));
    } else {
        assert(v[0].0 != n);
        assert(!has_name(v.drop_first(), n)) by {
            assert(forall|i: int|
                0 <= i < v.drop_first().len() ==> v.drop_first()[i] == v[i + 1]);
        }
        lemma_jar_set_missing(v.drop_first(), n, val);
        assert(seq![v[0]] + v.drop_first().push((n, val)) =~= v.push((n, val)));
    }
}

/// Where the name stands at `i` in a well-formed jar, `jar_remove` cuts
/// index `i` alone.
pub proof fn lemma_jar_remove_found(v: JarView, n: Seq<char>, i: int)
    requires
        names_distinct(v),
        0 <= i < v.len(),
        v[i].0 == n,
    ensures
        jar_remove(v, n) == v.subrange(0, i) + v.subrange(i + 1, v.len() as int),
    decreases v.len(),
{
    if i == 0 {
        assert(!has_name(v.drop_first(), n)) by {
            assert(forall|j: int|
                0 <= j < v.drop_first().len() ==> v.drop_first()[j] == v[j + 1]);
        }
        lemma_jar_remove_missing(v.drop_first(), n);
        assert(jar_remove(v, n) == v.drop_first());
        assert(v.subrange(0, 0) + v.subrange(1, v.len() as int) =~= v.drop_first());
    } else {
        assert(v[0].0 != n);
        assert(v.drop_first()[i - 1].0 == n);
        assert(names_distinct(v.drop_first())) by {
            assert(forall|j: int|
                0 <= j < v.drop_first().len() ==> v.drop_first()[j] == v[j + 1]);
        }
        lemma_jar_remove_found(v.drop_first(), n, i - 1);
        assert(seq![v[0]] + (v.drop_first().subrange(0, i - 1) + v.drop_first().subrange(
            i,
            v.len() - 1,
        )) =~= v.subrange(0, i) + v.subrange(i + 1, v.len() as int));
    }
}

/// Where the name is absent, `jar_remove` changes nothing.
pub proof fn lemma_jar_remove_missing(v: JarView, n: Seq<char>)
    requires
        !has_name(v, n),
    ensures
        jar_remove(v, n) == v,
    decreases v.len(),
{
    if v.len() == 0 {
        assert(jar_remove(v, n) =~= v);
    } else {
        assert(v[0].0 != n);
        assert(!has_name(v.drop_first(), n)) by {
            assert(forall|i: int|
                0 <= i < v.drop_first().len() ==> v.drop_first()[i] == v[i + 1]);
        }
        lemma_jar_remove_missing(v.drop_first(), n);
        assert(seq![v[0]] + v.drop_first() =~= v);
    }
}

/// The cookie jar of one request.
pub struct CookieJar {
    cookies: Vec<(String, String)>,
}

impl View for CookieJar {
    type V = JarView;

    closed spec fn view(&self) -> JarView {
        Seq::new(self.cookies@.len(), |i: int| (self.cookies@[i].0@, self.cookies@[i].1@))
    }
}

impl CookieJar {
    /// The jar is well formed: no two cookies share a name.
    pub open spec fn wf(&self) -> bool {
        names_distinct(self@)
    }

    /// An empty jar.
    pub fn new() -> (jar: CookieJar)
        ensures
            jar.wf(),
            jar@ == Seq::<(Seq<char>, Seq<char>)>::empty(),
    {
        let jar = CookieJar { cookies: Vec::new() };
        proof {
            assert(jar@ =~= Seq::<(Seq<char>, Seq<char>)>::empty());
        }
        jar
    }

    /// How many cookies the jar carries.
    pub fn len(&self) -> (n: usize)
        ensures
            n == self@.len(),
    {
        self.cookies.len()
    }

    /// The name of the cookie at `i`.
    pub fn name_at(&self, i: usize) -> (r: &String)
        requires
            i < self@.len(),
        ensures
            r@ == self@[i as int].0,
    {
        &self.cookies[i].0
    }

    /// The value of the cookie at `i`.
    pub fn value_at(&self, i: usize) -> (r: &String)
        requires
            i < self@.len(),
        ensures
            r@ == self@[i as int].1,
    {
        &self.cookies[i].1
    }

    /// Whether a cookie named `name` is present.
    pub fn contains(&self, name: &String) -> (r: bool)
        ensures
            r == has_name(self@, name@),
    {
        let mut i: usize = 0;
        while i < self.cookies.len()
            invariant
                i <= self@.len(),
                self@.len() == self.cookies@.len(),
                forall|j: int| 0 <= j < i ==> self@[j].0 != name@,
            decreases self@.len() - i,
        {
            if self.cookies[i].0 == *name {
                assert(self@[i as int].0 == name@);
                return true;
            }
            i = i + 1;
        }
        false
    }

    /// Sets (or overwrites) the cookie named `name` to `value`.
    pub fn set(&mut self, name: String, value: String)
        requires
            old(self).wf(),
        ensures
            final(self).wf(),
            final(self)@ == jar_set(old(self)@, name@, value@),
    {
        let mut i: usize = 0;
        while i < self.cookies.len()
            invariant
                i <= self@.len(),
                self@.len() == self.cookies@.len(),
                self == old(self),
                old(self).wf(),
                forall|j: int| 0 <= j < i ==> self@[j].0 != name@,
            decreases self@.len() - i,
        {
            if self.cookies[i].0 == *(&name) {
                proof {
                    assert(old(self)@[i as int].0 == name@);
                    lemma_jar_set_found(old(self)@, name@, value@, i as int);
                }
                self.cookies.set(i, (name, value));
                proof {
                    assert(self@ =~= old(self)@.update(i as int, (name@, value@)));
                    assert forall|a: int, b: int| 0 <= a < b < self@.len() implies self@[a].0
                        != self@[b].0 by {
                        assert(self@[a].0 == old(self)@[a].0);
                        assert(self@[b].0 == old(self)@[b].0);
                    }
                }
                return;
            }
            i = i + 1;
        }
        proof {
            assert(!has_name(old(self)@, name@));
            lemma_jar_set_missing(old(self)@, name@, value@);
        }
        self.cookies.push((name, value));
        proof {
            assert(self@ =~= old(self)@.push((name@, value@)));
        }
    }

    /// Removes the cookie named `name`, if present; says whether it was.
    pub fn remove(&mut self, name: &String) -> (r: bool)
        requires
            old(self).wf(),
        ensures
            final(self).wf(),
            final(self)@ == jar_remove(old(self)@, name@),
            r == has_name(old(self)@, name@),
    {
        let mut i: usize = 0;
        while i < self.cookies.len()
            invariant
                i <= self@.len(),
                self@.len() == self.cookies@.len(),
                self == old(self),
                old(self).wf(),
                forall|j: int| 0 <= j < i ==> self@[j].0 != name@,
            decreases self@.len() - i,
        {
            if self.cookies[i].0 == *name {
                proof {
                    assert(old(self)@[i as int].0 == name@);
                    lemma_jar_remove_found(old(self)@, name@, i as int);
                }
                self.cookies.remove(i);
                proof {
                    assert(self@ =~= old(self)@.subrange(0, i as int) + old(self)@.subrange(
                        i as int + 1,
                        old(self)@.len() as int,
                    ));
                    assert(final(self).wf()) by {
                        assert(forall|a: int, b: int|
                            0 <= a < b < self@.len() ==> self@[a].0 != self@[b].0);
                    }
                }
                return true;
            }
            i = i + 1;
        }
        proof {
            assert(!has_name(old(self)@, name@));
            lemma_jar_remove_missing(old(self)@, name@);
        }
        false
    }
}

} // verus!
