use vstd::prelude::*;
use crate::value::Bval;
use crate::value::bytes_lt;
use crate::value::key_lt;
use crate::value::entries_sorted;
use crate::value::entries_unique;
use crate::value::sorted_insert;
use crate::value::canon;
use crate::value::entries_map;

verus! {

pub proof fn lemma_bytes_lt_irrefl(a: Seq<u8>)
    ensures
        !bytes_lt(a, a),
    decreases a.len(),
{
    if a.len() > 0 {
        lemma_bytes_lt_irrefl(a.subrange(1, a.len() as int));
    }
}

pub proof fn lemma_bytes_lt_connex(a: Seq<u8>, b: Seq<u8>)
    requires
        !bytes_lt(a, b),
        !bytes_lt(b, a),
    ensures
        a == b,
    decreases a.len(),
{
    if a.len() == 0 || b.len() == 0 {
        assert(a =~= b);
    } else {
        let ta = a.subrange(1, a.len() as int);
        let tb = b.subrange(1, b.len() as int);
        lemma_bytes_lt_connex(ta, tb);
        assert(a[0] == b[0]);
        assert(a.len() == b.len()) by {
            assert(ta.len() == tb.len());
        }
        assert forall|i: int| 0 <= i < a.len() implies a[i] == b[i] by {
            if i > 0 {
                assert(ta[i - 1] == tb[i - 1]);
            }
        }
        assert(a =~= b);
    }
}

/// A key that is neither below another key nor equal to it lies above it.
pub proof fn lemma_key_gt(a: Seq<char>, b: Seq<char>)
    requires
        !key_lt(a, b),
        a != b,
    ensures
        key_lt(b, a),
{
    if !key_lt(b, a) {
        lemma_key_lt_connex(a, b);
    }
}

/// The map of a one-entry sequence.
pub proof fn lemma_entries_map_singleton(p: (Seq<char>, Bval))
    ensures
        entries_map(seq![p]) == Map::<Seq<char>, Bval>::empty().insert(p.0, p.1),
{
    reveal_with_fuel(entries_map, 2);
    assert(seq![p].subrange(0, 0) =~= Seq::<(Seq<char>, Bval)>::empty());
    assert(seq![p].last() == p);
    assert(entries_map(seq![p]) =~= Map::<Seq<char>, Bval>::empty().insert(p.0, p.1));
}

pub proof fn lemma_bytes_lt_asym(a: Seq<u8>, b: Seq<u8>)
    requires
        bytes_lt(a, b),
    ensures
        !bytes_lt(b, a),
    decreases a.len(),
{
    if a.len() > 0 && b.len() > 0 && a[0] == b[0] {
        lemma_bytes_lt_asym(a.subrange(1, a.len() as int), b.subrange(1, b.len() as int));
    }
}

pub proof fn lemma_bytes_lt_trans(a: Seq<u8>, b: Seq<u8>, c: Seq<u8>)
    requires
        bytes_lt(a, b),
        bytes_lt(b, c),
    ensures
        bytes_lt(a, c),
    decreases a.len(),
{
    if a.len() > 0 && b.len() > 0 && c.len() > 0 && a[0] == b[0] && b[0] == c[0] {
        lemma_bytes_lt_trans(
            a.subrange(1, a.len() as int),
            b.subrange(1, b.len() as int),
            c.subrange(1, c.len() as int),
        );
    }
}

pub proof fn lemma_key_lt_irrefl(a: Seq<char>)
    ensures
        !key_lt(a, a),
{
    lemma_bytes_lt_irrefl(vstd::utf8::encode_utf8(a));
}

pub proof fn lemma_key_lt_connex(a: Seq<char>, b: Seq<char>)
    requires
        !key_lt(a, b),
        !key_lt(b, a),
    ensures
        a == b,
{
    broadcast use vstd::utf8::encode_utf8_decode_utf8;

    lemma_bytes_lt_connex(vstd::utf8::encode_utf8(a), vstd::utf8::encode_utf8(b));
    assert(vstd::utf8::decode_utf8(vstd::utf8::encode_utf8(a)) == vstd::utf8::decode_utf8(
        vstd::utf8::encode_utf8(b),
    ));
}

pub proof fn lemma_key_lt_asym(a: Seq<char>, b: Seq<char>)
    requires
        key_lt(a, b),
    ensures
        !key_lt(b, a),
{
    lemma_bytes_lt_asym(vstd::utf8::encode_utf8(a), vstd::utf8::encode_utf8(b));
}

pub proof fn lemma_key_lt_trans(a: Seq<char>, b: Seq<char>, c: Seq<char>)
    requires
        key_lt(a, b),
        key_lt(b, c),
    ensures
        key_lt(a, c),
{
    lemma_bytes_lt_trans(
        vstd::utf8::encode_utf8(a),
        vstd::utf8::encode_utf8(b),
        vstd::utf8::encode_utf8(c),
    );
}

/// Each key of the entry map is the key of some entry, and each entry's
/// key is in the map.
pub proof fn lemma_entries_map_dom(e: Seq<(Seq<char>, Bval)>)
    ensures
        forall|k: Seq<char>|
            entries_map(e).contains_key(k) <==> exists|i: int|
                0 <= i < e.len() && (#[trigger] e[i]).0 == k,
    decreases e.len(),
{
    if e.len() > 0 {
        let head = e.subrange(0, e.len() - 1);
        lemma_entries_map_dom(head);
        assert forall|k: Seq<char>| entries_map(e).contains_key(k) implies exists|i: int|
            0 <= i < e.len() && (#[trigger] e[i]).0 == k by {
            if k != e.last().0 {
                assert(entries_map(head).contains_key(k));
                let i = choose|i: int| 0 <= i < head.len() && (#[trigger] head[i]).0 == k;
                assert(head[i] == e[i]);
                assert(e[i].0 == k);
            } else {
                assert(e[e.len() - 1].0 == k);
            }
        }
        assert forall|k: Seq<char>|
            (exists|i: int| 0 <= i < e.len() && (#[trigger] e[i]).0 == k) implies entries_map(
            e,
        ).contains_key(k) by {
            let i = choose|i: int| 0 <= i < e.len() && (#[trigger] e[i]).0 == k;
            if i < e.len() - 1 {
                assert(head[i].0 == k);
                assert(entries_map(head).contains_key(k));
            } else {
                assert(k == e.last().0);
            }
        }
    }
}

/// In an entry sequence with pairwise distinct keys, the map binds each
/// entry's key to that entry's value.
pub proof fn lemma_entries_map_unique_val(e: Seq<(Seq<char>, Bval)>, idx: int)
    requires
        entries_unique(e),
        0 <= idx < e.len(),
    ensures
        entries_map(e).contains_key(e[idx].0),
        entries_map(e)[e[idx].0] == e[idx].1,
    decreases e.len(),
{
    if idx < e.len() - 1 {
        let head = e.subrange(0, e.len() - 1);
        assert(entries_unique(head)) by {
            assert forall|p: int, q: int| 0 <= p < q < head.len() implies (#[trigger] head[p]).0
                != (#[trigger] head[q]).0 by {
                assert(head[p] == e[p]);
                assert(head[q] == e[q]);
            }
        }
        assert(head[idx] == e[idx]);
        lemma_entries_map_unique_val(head, idx);
        assert(e[idx].0 != e.last().0);
    }
}

/// The entry map of a concatenation: the right side wins.
pub proof fn lemma_entries_map_concat(a: Seq<(Seq<char>, Bval)>, b: Seq<(Seq<char>, Bval)>)
    ensures
        entries_map(a + b) == entries_map(a).union_prefer_right(entries_map(b)),
    decreases b.len(),
{
    if b.len() == 0 {
        assert(a + b =~= a);
        assert(entries_map(a).union_prefer_right(entries_map(b)) =~= entries_map(a));
    } else {
        let bh = b.subrange(0, b.len() - 1);
        lemma_entries_map_concat(a, bh);
        assert((a + b).subrange(0, (a + b).len() - 1) =~= a + bh);
        assert((a + b).last() == b.last());
        assert(entries_map(a + b) =~= entries_map(a).union_prefer_right(entries_map(b)));
    }
}

/// Inserting into a sorted entry sequence keeps it sorted, and adds no
/// entry besides the inserted one.
pub proof fn lemma_sorted_insert_sorted(e: Seq<(Seq<char>, Bval)>, k: Seq<char>, v: Bval)
    requires
        entries_sorted(e),
    ensures
        entries_sorted(sorted_insert(e, k, v)),
        forall|m: int|
            0 <= m < sorted_insert(e, k, v).len() ==> #[trigger] sorted_insert(e, k, v)[m] == (
            k,
            v,
        ) || e.contains(sorted_insert(e, k, v)[m]),
    decreases e.len(),
{
    let r = sorted_insert(e, k, v);
    if e.len() == 0 {
    } else if key_lt(k, e[0].0) {
        assert forall|i: int, j: int| 0 <= i < j < r.len() implies key_lt(
            (#[trigger] r[i]).0,
            (#[trigger] r[j]).0,
        ) by {
            if i == 0 {
                if j > 1 {
                    lemma_key_lt_trans(k, e[0].0, e[j - 1].0);
                }
            }
        }
    } else if e[0].0 == k {
        let t = e.subrange(1, e.len() as int);
        assert forall|i: int, j: int| 0 <= i < j < r.len() implies key_lt(
            (#[trigger] r[i]).0,
            (#[trigger] r[j]).0,
        ) by {
            assert(r[j] == e[j]);
            if i > 0 {
                assert(r[i] == e[i]);
            }
        }
        assert forall|m: int| 0 <= m < r.len() implies #[trigger] r[m] == (k, v) || e.contains(
            r[m],
        ) by {
            if m > 0 {
                assert(r[m] == e[m]);
            }
        }
    } else {
        let t = e.subrange(1, e.len() as int);
        assert(entries_sorted(t)) by {
            assert forall|i: int, j: int| 0 <= i < j < t.len() implies key_lt(
                (#[trigger] t[i]).0,
                (#[trigger] t[j]).0,
            ) by {
                assert(t[i] == e[i + 1]);
                assert(t[j] == e[j + 1]);
            }
        }
        lemma_sorted_insert_sorted(t, k, v);
        let rt = sorted_insert(t, k, v);
        lemma_key_gt(k, e[0].0);
        assert(key_lt(e[0].0, k));
        assert forall|i: int, j: int| 0 <= i < j < r.len() implies key_lt(
            (#[trigger] r[i]).0,
            (#[trigger] r[j]).0,
        ) by {
            if i == 0 {
                assert(r[j] == rt[j - 1]);
                if rt[j - 1] == (k, v) {
                } else {
                    let w = choose|w: int| 0 <= w < t.len() && t[w] == rt[j - 1];
                    assert(t[w] == e[w + 1]);
                }
            } else {
                assert(r[i] == rt[i - 1]);
                assert(r[j] == rt[j - 1]);
            }
        }
        assert forall|m: int| 0 <= m < r.len() implies #[trigger] r[m] == (k, v) || e.contains(
            r[m],
        ) by {
            if m > 0 {
                if rt[m - 1] == (k, v) {
                } else {
                    let w = choose|w: int| 0 <= w < t.len() && t[w] == rt[m - 1];
                    assert(e[w + 1] == rt[m - 1]);
                }
            }
        }
    }
}

/// Inserting into a sorted entry sequence inserts into its map.
pub proof fn lemma_sorted_insert_map(e: Seq<(Seq<char>, Bval)>, k: Seq<char>, v: Bval)
    requires
        entries_sorted(e),
    ensures
        entries_map(sorted_insert(e, k, v)) == entries_map(e).insert(k, v),
    decreases e.len(),
{
    let r = sorted_insert(e, k, v);
    lemma_entries_map_dom(e);
    if e.len() == 0 {
        lemma_entries_map_singleton((k, v));
        assert(r =~= seq![(k, v)]);
        assert(entries_map(r) =~= entries_map(e).insert(k, v));
    } else if key_lt(k, e[0].0) {
        lemma_entries_map_concat(seq![(k, v)], e);
        lemma_entries_map_singleton((k, v));
        assert(!entries_map(e).contains_key(k)) by {
            if entries_map(e).contains_key(k) {
                let i = choose|i: int| 0 <= i < e.len() && (#[trigger] e[i]).0 == k;
                if i == 0 {
                    lemma_key_lt_irrefl(k);
                } else {
                    lemma_key_lt_trans(k, e[0].0, e[i].0);
                    lemma_key_lt_irrefl(k);
                }
            }
        }
        assert(seq![(k, v)] + e =~= r);
        assert(entries_map(r) =~= entries_map(e).insert(k, v));
    } else if e[0].0 == k {
        let t = e.subrange(1, e.len() as int);
        lemma_entries_map_concat(seq![(k, v)], t);
        lemma_entries_map_concat(seq![e[0]], t);
        assert(seq![e[0]] + t =~= e);
        lemma_entries_map_singleton((k, v));
        lemma_entries_map_singleton(e[0]);
        assert(!entries_map(t).contains_key(k)) by {
            lemma_entries_map_dom(t);
            if entries_map(t).contains_key(k) {
                let i = choose|i: int| 0 <= i < t.len() && (#[trigger] t[i]).0 == k;
                assert(t[i] == e[i + 1]);
                lemma_key_lt_irrefl(k);
            }
        }
        assert(entries_map(r) =~= entries_map(e).insert(k, v));
    } else {
        let t = e.subrange(1, e.len() as int);
        assert(entries_sorted(t)) by {
            assert forall|i: int, j: int| 0 <= i < j < t.len() implies key_lt(
                (#[trigger] t[i]).0,
                (#[trigger] t[j]).0,
            ) by {
                assert(t[i] == e[i + 1]);
                assert(t[j] == e[j + 1]);
            }
        }
        lemma_sorted_insert_map(t, k, v);
        lemma_key_gt(k, e[0].0);
        lemma_entries_map_concat(seq![e[0]], sorted_insert(t, k, v));
        lemma_entries_map_concat(seq![e[0]], t);
        assert(seq![e[0]] + t =~= e);
        lemma_entries_map_singleton(e[0]);
        assert(entries_map(r) =~= entries_map(e).insert(k, v));
    }
}

/// The canonical form is sorted.
pub proof fn lemma_canon_sorted(e: Seq<(Seq<char>, Bval)>)
    ensures
        entries_sorted(canon(e)),
    decreases e.len(),
{
    if e.len() > 0 {
        lemma_canon_sorted(e.subrange(0, e.len() - 1));
        lemma_sorted_insert_sorted(canon(e.subrange(0, e.len() - 1)), e.last().0, e.last().1);
    }
}

/// The canonical form keeps the entry map.
pub proof fn lemma_canon_map(e: Seq<(Seq<char>, Bval)>)
    ensures
        entries_map(canon(e)) == entries_map(e),
    decreases e.len(),
{
    if e.len() > 0 {
        let head = e.subrange(0, e.len() - 1);
        lemma_canon_map(head);
        lemma_canon_sorted(head);
        lemma_sorted_insert_map(canon(head), e.last().0, e.last().1);
    }
}

/// Two sorted entry sequences with the same entry map are equal: sorted
/// form is canonical.
pub proof fn lemma_sorted_same_map(s1: Seq<(Seq<char>, Bval)>, s2: Seq<(Seq<char>, Bval)>)
    requires
        entries_sorted(s1),
        entries_sorted(s2),
        entries_map(s1) == entries_map(s2),
    ensures
        s1 == s2,
    decreases s1.len(),
{
    lemma_entries_map_dom(s1);
    lemma_entries_map_dom(s2);
    if s1.len() == 0 {
        if s2.len() > 0 {
            assert(entries_map(s2).contains_key(s2[s2.len() - 1].0));
        }
        assert(s1 =~= s2);
    } else if s2.len() == 0 {
        assert(entries_map(s1).contains_key(s1[s1.len() - 1].0));
        assert(s1 =~= s2);
    } else {
        let a = s1.last();
        let b = s2.last();
        assert(entries_map(s1).contains_key(a.0)) by {
            assert(s1[s1.len() - 1].0 == a.0);
        }
        assert(entries_map(s2).contains_key(b.0)) by {
            assert(s2[s2.len() - 1].0 == b.0);
        }
        assert(a.0 == b.0) by {
            let i = choose|i: int| 0 <= i < s2.len() && (#[trigger] s2[i]).0 == a.0;
            let j = choose|j: int| 0 <= j < s1.len() && (#[trigger] s1[j]).0 == b.0;
            if a.0 != b.0 {
                assert(i < s2.len() - 1);
                assert(key_lt(a.0, b.0));
                assert(j < s1.len() - 1);
                assert(key_lt(b.0, a.0));
                lemma_key_lt_asym(a.0, b.0);
            }
        }
        let h1 = s1.subrange(0, s1.len() - 1);
        let h2 = s2.subrange(0, s2.len() - 1);
        assert(!entries_map(h1).contains_key(a.0)) by {
            lemma_entries_map_dom(h1);
            if entries_map(h1).contains_key(a.0) {
                let i = choose|i: int| 0 <= i < h1.len() && (#[trigger] h1[i]).0 == a.0;
                assert(h1[i] == s1[i]);
                assert(key_lt(s1[i].0, a.0));
                lemma_key_lt_irrefl(a.0);
            }
        }
        assert(!entries_map(h2).contains_key(b.0)) by {
            lemma_entries_map_dom(h2);
            if entries_map(h2).contains_key(b.0) {
                let i = choose|i: int| 0 <= i < h2.len() && (#[trigger] h2[i]).0 == b.0;
                assert(h2[i] == s2[i]);
                assert(key_lt(s2[i].0, b.0));
                lemma_key_lt_irrefl(b.0);
            }
        }
        assert(a.1 == b.1) by {
            assert(entries_map(s1)[a.0] == a.1);
            assert(entries_map(s2)[b.0] == b.1);
        }
        assert(entries_map(s1) == entries_map(h1).insert(a.0, a.1));
        assert(entries_map(s2) == entries_map(h2).insert(b.0, b.1));
        assert forall|q: Seq<char>| #[trigger] entries_map(h1).contains_key(q)
            implies entries_map(h2).contains_key(q) && entries_map(h1)[q] == entries_map(h2)[q] by {
            assert(q != a.0);
            assert(entries_map(s1).contains_key(q));
            assert(entries_map(s2).contains_key(q));
            assert(entries_map(h2).contains_key(q));
            assert(entries_map(h1)[q] == entries_map(s1)[q]);
            assert(entries_map(h2)[q] == entries_map(s2)[q]);
        }
        assert forall|q: Seq<char>| #[trigger] entries_map(h2).contains_key(q)
            implies entries_map(h1).contains_key(q) by {
            assert(q != b.0);
            assert(entries_map(s2).contains_key(q));
            assert(entries_map(s1).contains_key(q));
        }
        assert(entries_map(h1) =~= entries_map(h2));
        assert(entries_sorted(h1)) by {
            assert forall|i: int, j: int| 0 <= i < j < h1.len() implies key_lt(
                (#[trigger] h1[i]).0,
                (#[trigger] h1[j]).0,
            ) by {
                assert(h1[i] == s1[i]);
                assert(h1[j] == s1[j]);
            }
        }
        assert(entries_sorted(h2)) by {
            assert forall|i: int, j: int| 0 <= i < j < h2.len() implies key_lt(
                (#[trigger] h2[i]).0,
                (#[trigger] h2[j]).0,
            ) by {
                assert(h2[i] == s2[i]);
                assert(h2[j] == s2[j]);
            }
        }
        lemma_sorted_same_map(h1, h2);
        assert(s1 =~= s2) by {
            assert(s1.len() == s2.len());
            assert forall|i: int| 0 <= i < s1.len() implies s1[i] == s2[i] by {
                if i < s1.len() - 1 {
                    assert(h1[i] == h2[i]);
                }
            }
        }
    }
}

/// Appending an entry inserts it into the canonical form.
pub proof fn lemma_canon_push(e: Seq<(Seq<char>, Bval)>, k: Seq<char>, v: Bval)
    ensures
        canon(e.push((k, v))) == sorted_insert(canon(e), k, v),
{
    let p = e.push((k, v));
    assert(p.subrange(0, p.len() - 1) =~= e);
    assert(p.last() == (k, v));
}

/// Overwriting the one entry that holds a key updates the canonical form
/// the same way as inserting the new value.
pub proof fn lemma_canon_update(e: Seq<(Seq<char>, Bval)>, i: int, k: Seq<char>, v: Bval)
    requires
        0 <= i < e.len(),
        e[i].0 == k,
        entries_unique(e),
    ensures
        canon(e.update(i, (k, v))) == sorted_insert(canon(e), k, v),
{
    let u = e.update(i, (k, v));
    let pre = e.subrange(0, i);
    let post = e.subrange(i + 1, e.len() as int);
    lemma_canon_sorted(u);
    lemma_canon_sorted(e);
    lemma_canon_map(u);
    lemma_canon_map(e);
    lemma_sorted_insert_sorted(canon(e), k, v);
    lemma_sorted_insert_map(canon(e), k, v);
    assert(!entries_map(post).contains_key(k)) by {
        lemma_entries_map_dom(post);
        if entries_map(post).contains_key(k) {
            let w = choose|w: int| 0 <= w < post.len() && (#[trigger] post[w]).0 == k;
            assert(post[w] == e[i + 1 + w]);
            assert(e[i].0 == e[i + 1 + w].0);
        }
    }
    assert(entries_map(u) =~= entries_map(e).insert(k, v)) by {
        assert(e =~= pre + (seq![e[i]] + post));
        assert(u =~= pre + (seq![(k, v)] + post));
        lemma_entries_map_concat(pre, seq![e[i]] + post);
        lemma_entries_map_concat(pre, seq![(k, v)] + post);
        lemma_entries_map_concat(seq![e[i]], post);
        lemma_entries_map_concat(seq![(k, v)], post);
        lemma_entries_map_singleton((k, v));
        lemma_entries_map_singleton(e[i]);
    }
    lemma_sorted_same_map(canon(u), sorted_insert(canon(e), k, v));
}

/// Canonical determinism: two entry sequences with the same map have the
/// same canonical form, whatever order their entries came in.
pub proof fn lemma_canon_same_map(e1: Seq<(Seq<char>, Bval)>, e2: Seq<(Seq<char>, Bval)>)
    requires
        entries_map(e1) == entries_map(e2),
    ensures
        canon(e1) == canon(e2),
{
    lemma_canon_sorted(e1);
    lemma_canon_sorted(e2);
    lemma_canon_map(e1);
    lemma_canon_map(e2);
    lemma_sorted_same_map(canon(e1), canon(e2));
}


/// Every entry of the canonical form is one of the original entries.
pub proof fn lemma_canon_contains(e: Seq<(Seq<char>, Bval)>)
    ensures
        forall|i: int| 0 <= i < canon(e).len() ==> e.contains(#[trigger] canon(e)[i]),
    decreases e.len(),
{
    if e.len() > 0 {
        let head = e.subrange(0, e.len() - 1);
        lemma_canon_contains(head);
        lemma_canon_sorted(head);
        lemma_sorted_insert_sorted(canon(head), e.last().0, e.last().1);
        assert forall|i: int| 0 <= i < canon(e).len() implies e.contains(
            #[trigger] canon(e)[i],
        ) by {
            if canon(e)[i] == (e.last().0, e.last().1) {
                assert(e[e.len() - 1] == canon(e)[i]);
            } else {
                assert(canon(head).contains(canon(e)[i]));
                let w = choose|w: int| 0 <= w < canon(head).len() && canon(head)[w] == canon(
                    e,
                )[i];
                assert(head.contains(canon(head)[w]));
                let u = choose|u: int| 0 <= u < head.len() && head[u] == canon(head)[w];
                assert(e[u] == canon(e)[i]);
            }
        }
    }
}

} // verus!
