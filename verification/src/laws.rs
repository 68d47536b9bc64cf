//! The laws the store and the renderer obey, over whole jars.
//!
//! A jar written only by this system carries canonical decimal names, no
//! two alike. Under those conditions: a reload reads the same list out of
//! the cookies whatever order the client sent them in, and the page lists
//! entries ascending by id (`lemma_render_order_independent`); a delete
//! leaves no entry under the deleted id (`lemma_delete_removes`); an
//! update rewrites exactly the targeted id with the submitted fields
//! (`lemma_update_preserves_id`). The codec's round trip is
//! `codec::lemma_decode_encode`; the counts the page reports are
//! `render::lemma_render_counts`.

use vstd::prelude::*;

use crate::codec::{decode_spec, encode_spec, lemma_decode_encode};
use crate::entry::EntryModel;
use crate::jar::{
    JarView, has_name, jar_remove, jar_set, lemma_jar_set_found, lemma_jar_set_missing,
    names_distinct,
};
use crate::render::page_html;
use crate::store::{
    cookie_ok, ids_ascending, jar_map, jar_parses, lemma_ascending_unique, set_map,
};
use crate::text::{dec_rep, dec_val, is_canonical_id, lemma_dec_val_of_rep};

verus! {

/// Every cookie's name is the canonical decimal writing of its id.
pub open spec fn jar_canonical(v: JarView) -> bool {
    forall|i: int| 0 <= i < v.len() ==> is_canonical_id((#[trigger] v[i]).0)
}

/// No two cookies name one id.
pub open spec fn jar_ids_distinct(v: JarView) -> bool {
    forall|i: int, j: int| 0 <= i < j < v.len() ==> dec_val(v[i].0) != dec_val(v[j].0)
}

/// Distinct canonical names name distinct ids.
pub proof fn lemma_canonical_ids_distinct(v: JarView)
    requires
        names_distinct(v),
        jar_canonical(v),
    ensures
        jar_ids_distinct(v),
{
    assert forall|i: int, j: int| 0 <= i < j < v.len() implies dec_val(v[i].0) != dec_val(
        v[j].0,
    ) by {
        if dec_val(v[i].0) == dec_val(v[j].0) {
            assert(v[i].0 == dec_rep(dec_val(v[i].0)));
            assert(v[j].0 == dec_rep(dec_val(v[j].0)));
        }
    }
}

/// What `jar_map` holds: exactly the parsed ids of the cookies, each with
/// its decoded entry — provided no two cookies name one id.
pub proof fn lemma_jar_map_characterize(v: JarView)
    requires
        jar_parses(v),
        jar_ids_distinct(v),
    ensures
        forall|k: int|
            jar_map(v).contains_key(k) <==> exists|i: int|
                0 <= i < v.len() && dec_val(v[i].0) as int == k,
        forall|i: int|
            0 <= i < v.len() ==> jar_map(v).contains_key(dec_val((#[trigger] v[i]).0) as int)
                && jar_map(v)[dec_val(v[i].0) as int] == decode_spec(v[i].1).unwrap(),
    decreases v.len(),
{
    if v.len() > 0 {
        let dl = v.drop_last();
        let c = v.last();
        assert(forall|i: int| 0 <= i < dl.len() ==> dl[i] == v[i]);
        assert(cookie_ok(c)) by {
            assert(c == v[v.len() - 1]);
        }
        lemma_jar_map_characterize(dl);
        assert forall|k: int| jar_map(v).contains_key(k) implies exists|i: int|
            0 <= i < v.len() && dec_val(v[i].0) as int == k by {
            if k != dec_val(c.0) as int {
                assert(jar_map(dl).contains_key(k));
                let i = choose|i: int| 0 <= i < dl.len() && dec_val(dl[i].0) as int == k;
                assert(dec_val(v[i].0) as int == k);
            } else {
                assert(dec_val(v[v.len() - 1].0) as int == k);
            }
        }
        assert forall|k: int|
            (exists|i: int| 0 <= i < v.len() && dec_val(v[i].0) as int == k) implies jar_map(
            v,
        ).contains_key(k) by {
            let i = choose|i: int| 0 <= i < v.len() && dec_val(v[i].0) as int == k;
            if i < v.len() - 1 {
                assert(dec_val(dl[i].0) as int == k);
            }
        }
        assert forall|i: int| 0 <= i < v.len() implies jar_map(v).contains_key(
            dec_val(v[i].0) as int,
        ) && jar_map(v)[dec_val(v[i].0) as int] == decode_spec(v[i].1).unwrap() by {
            if i < v.len() - 1 {
                assert(dec_val(v[i].0) != dec_val(c.0));
                assert(jar_map(dl)[dec_val(dl[i].0) as int] == decode_spec(dl[i].1).unwrap());
            } else {
                assert(v[i] == c);
            }
        }
    }
}

/// Two jars holding one multiset of cookies read as one map.
pub proof fn lemma_jar_map_permutation(v1: JarView, v2: JarView)
    requires
        jar_parses(v1),
        jar_parses(v2),
        jar_ids_distinct(v1),
        jar_ids_distinct(v2),
        v1.to_multiset() == v2.to_multiset(),
    ensures
        jar_map(v1) == jar_map(v2),
{
    lemma_jar_map_characterize(v1);
    lemma_jar_map_characterize(v2);
    v1.to_multiset_ensures();
    v2.to_multiset_ensures();
    assert forall|k: int| jar_map(v1).contains_key(k) implies jar_map(v2).contains_key(k)
        && jar_map(v1)[k] == jar_map(v2)[k] by {
        let i = choose|i: int| 0 <= i < v1.len() && dec_val(v1[i].0) as int == k;
        assert(v1.contains(v1[i]));
        assert(v1.to_multiset().count(v1[i]) > 0);
        assert(v2.to_multiset().count(v1[i]) > 0);
        assert(v2.contains(v1[i]));
        let j = choose|j: int| 0 <= j < v2.len() && v2[j] == v1[i];
        assert(dec_val(v2[j].0) as int == k);
        assert(jar_map(v1)[k] == decode_spec(v1[i].1).unwrap());
        assert(jar_map(v2)[k] == decode_spec(v2[j].1).unwrap());
    }
    assert forall|k: int| jar_map(v2).contains_key(k) implies jar_map(v1).contains_key(k) by {
        let j = choose|j: int| 0 <= j < v2.len() && dec_val(v2[j].0) as int == k;
        assert(v2.contains(v2[j]));
        assert(v2.to_multiset().count(v2[j]) > 0);
        assert(v1.to_multiset().count(v2[j]) > 0);
        assert(v1.contains(v2[j]));
        let i = choose|i: int| 0 <= i < v1.len() && v1[i] == v2[j];
        assert(dec_val(v1[i].0) as int == k);
    }
    assert(jar_map(v1) =~= jar_map(v2));
}

/// Ordering: whatever order the client sent the cookies in, a reload
/// yields one list, ascending by id, and so one rendered page.
pub proof fn lemma_render_order_independent(
    v1: JarView,
    v2: JarView,
    s1: Seq<(usize, EntryModel)>,
    s2: Seq<(usize, EntryModel)>,
)
    requires
        jar_parses(v1),
        jar_parses(v2),
        jar_ids_distinct(v1),
        jar_ids_distinct(v2),
        v1.to_multiset() == v2.to_multiset(),
        ids_ascending(s1),
        ids_ascending(s2),
        set_map(s1) == jar_map(v1),
        set_map(s2) == jar_map(v2),
    ensures
        s1 == s2,
        page_html(s1) == page_html(s2),
{
    lemma_jar_map_permutation(v1, v2);
    lemma_ascending_unique(s1, s2);
}

/// Cutting the last cookie commutes with removal by name.
proof fn lemma_jar_remove_unsnoc(v: JarView, n: Seq<char>)
    requires
        v.len() > 0,
    ensures
        jar_remove(v, n) == if v.last().0 == n {
            jar_remove(v.drop_last(), n)
        } else {
            jar_remove(v.drop_last(), n).push(v.last())
        },
    decreases v.len(),
{
    let dl = v.drop_last();
    if v.len() == 1 {
        assert(v.drop_first() =~= Seq::<(Seq<char>, Seq<char>)>::empty());
        assert(dl =~= Seq::<(Seq<char>, Seq<char>)>::empty());
        if v[0].0 != n {
            assert(seq![v[0]] + jar_remove(v.drop_first(), n) =~= jar_remove(dl, n).push(
                v.last(),
            ));
        }
    } else {
        let d = v.drop_first();
        assert(d.len() > 0);
        assert(d.last() == v.last());
        assert(d.drop_last() =~= dl.drop_first());
        lemma_jar_remove_unsnoc(d, n);
        if v[0].0 == n {
            assert(dl[0].0 == n);
            if v.last().0 == n {
                assert(jar_remove(v, n) == jar_remove(d, n));
            } else {
                assert(jar_remove(v, n) == jar_remove(d.drop_last(), n).push(v.last()));
                assert(jar_remove(dl, n) == jar_remove(dl.drop_first(), n));
            }
        } else {
            assert(dl[0].0 == v[0].0);
            if v.last().0 == n {
                assert(jar_remove(v, n) == seq![v[0]] + jar_remove(d.drop_last(), n));
                assert(jar_remove(dl, n) == seq![dl[0]] + jar_remove(dl.drop_first(), n));
            } else {
                assert(jar_remove(v, n) == seq![v[0]] + jar_remove(d.drop_last(), n).push(
                    v.last(),
                ));
                assert(jar_remove(dl, n) == seq![dl[0]] + jar_remove(dl.drop_first(), n));
                assert(seq![v[0]] + jar_remove(dl.drop_first(), n).push(v.last()) =~= (
                seq![v[0]] + jar_remove(dl.drop_first(), n)).push(v.last()));
            }
        }
    }
}

/// Delete removes: after the cookie of `id` is removed from a jar of
/// canonical names, a reload of the jar no longer holds `id`.
pub proof fn lemma_delete_removes(v: JarView, id: usize)
    requires
        jar_canonical(v),
    ensures
        !jar_map(jar_remove(v, dec_rep(id as nat))).contains_key(id as int),
    decreases v.len(),
{
    let n = dec_rep(id as nat);
    lemma_dec_val_of_rep(id as nat);
    if v.len() == 0 {
        assert(jar_remove(v, n) =~= Seq::<(Seq<char>, Seq<char>)>::empty());
    } else {
        let dl = v.drop_last();
        let c = v.last();
        assert(forall|i: int| 0 <= i < dl.len() ==> dl[i] == v[i]);
        lemma_delete_removes(dl, id);
        lemma_jar_remove_unsnoc(v, n);
        if c.0 == n {
            assert(jar_remove(v, n) == jar_remove(dl, n));
        } else {
            let w = jar_remove(dl, n).push(c);
            assert(w.drop_last() =~= jar_remove(dl, n));
            assert(w.last() == c);
            if cookie_ok(c) {
                assert(c == v[v.len() - 1]);
                assert(is_canonical_id(c.0));
                assert(dec_val(c.0) != id as nat) by {
                    if dec_val(c.0) == id as nat {
                        assert(c.0 == dec_rep(dec_val(c.0)));
                    }
                }
            }
        }
    }
}

/// Update preserves the id: rewriting the cookie of `id` with an entry's
/// writing leaves a jar whose reload holds exactly that entry at `id`.
pub proof fn lemma_update_preserves_id(v: JarView, id: usize, m: EntryModel)
    requires
        names_distinct(v),
        jar_canonical(v),
        jar_parses(v),
    ensures
        jar_map(jar_set(v, dec_rep(id as nat), encode_spec(m))).contains_key(id as int),
        jar_map(jar_set(v, dec_rep(id as nat), encode_spec(m)))[id as int] == m,
{
    let n = dec_rep(id as nat);
    let val = encode_spec(m);
    lemma_dec_val_of_rep(id as nat);
    lemma_decode_encode(m);
    lemma_canonical_ids_distinct(v);
    if has_name(v, n) {
        let i = choose|i: int| 0 <= i < v.len() && v[i].0 == n;
        assert(forall|j: int| 0 <= j < i ==> v[j].0 != n);
        lemma_jar_set_found(v, n, val, i);
        let w = v.update(i, (n, val));
        assert(forall|j: int| 0 <= j < w.len() && j != i ==> w[j] == v[j]);
        assert(w[i] == (n, val));
        assert(jar_parses(w)) by {
            assert(forall|j: int| 0 <= j < w.len() && j != i ==> cookie_ok(w[j]));
            assert(cookie_ok(w[i]));
        }
        assert(jar_ids_distinct(w)) by {
            assert(dec_val(w[i].0) == dec_val(v[i].0));
            assert(forall|a: int| 0 <= a < w.len() ==> dec_val(w[a].0) == dec_val(v[a].0));
        }
        lemma_jar_map_characterize(w);
        assert(dec_val(w[i].0) as int == id as int);
        assert(jar_map(w)[id as int] == decode_spec(w[i].1).unwrap());
    } else {
        lemma_jar_set_missing(v, n, val);
        let w = v.push((n, val));
        assert(w.drop_last() =~= v);
        assert(w.last() == (n, val));
        crate::text::lemma_dec_rep_digits(id as nat);
        assert(cookie_ok((n, val)));
        assert(jar_map(w) == jar_map(v).insert(dec_val(n) as int, decode_spec(val).unwrap()));
    }
}

} // verus!
