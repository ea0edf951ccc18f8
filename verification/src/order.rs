//! The lexicographic order of strings (by code point, which is the order
//! Rust's `String` comparison gives, since UTF-8 preserves it), and the
//! pigeonhole fact the name-suffixing searches rely on.

use vstd::prelude::*;
use vstd::relations::{sorted_by, total_ordering};
use vstd::set_lib::{lemma_int_range, lemma_len_subset, lemma_map_size, set_int_range};

verus! {

/// `a` sorts strictly before `b`.
pub open spec fn lex_lt(a: Seq<char>, b: Seq<char>) -> bool
    decreases a.len(),
{
    if a.len() == 0 {
        b.len() > 0
    } else if b.len() == 0 {
        false
    } else if a[0] != b[0] {
        (a[0] as u32) < (b[0] as u32)
    } else {
        lex_lt(a.drop_first(), b.drop_first())
    }
}

/// The order is irreflexive.
pub proof fn lemma_lex_irreflexive(a: Seq<char>)
    ensures
        !lex_lt(a, a),
    decreases a.len(),
{
    if a.len() > 0 {
        lemma_lex_irreflexive(a.drop_first());
    }
}

/// The order is transitive.
pub proof fn lemma_lex_transitive(a: Seq<char>, b: Seq<char>, c: Seq<char>)
    requires
        lex_lt(a, b),
        lex_lt(b, c),
    ensures
        lex_lt(a, c),
    decreases a.len(),
{
    if a.len() > 0 && b.len() > 0 && c.len() > 0 {
        if a[0] == b[0] && b[0] == c[0] {
            lemma_lex_transitive(a.drop_first(), b.drop_first(), c.drop_first());
        }
    }
}

/// The order is total on distinct sequences and asymmetric.
pub proof fn lemma_lex_total(a: Seq<char>, b: Seq<char>)
    ensures
        a != b ==> (lex_lt(a, b) || lex_lt(b, a)),
        !(lex_lt(a, b) && lex_lt(b, a)),
    decreases a.len(),
{
    if a.len() > 0 && b.len() > 0 {
        if a[0] != b[0] {
            vstd::utf8::char_u32_cast(a[0], a[0] as u32);
            vstd::utf8::char_u32_cast(b[0], b[0] as u32);
        }
        if a[0] == b[0] {
            lemma_lex_total(a.drop_first(), b.drop_first());
            if a.drop_first() == b.drop_first() {
                assert(a =~= seq![a[0]] + a.drop_first());
                assert(b =~= seq![b[0]] + b.drop_first());
                assert(a =~= b);
            }
        }
    } else if a.len() == 0 && b.len() == 0 {
        assert(a =~= b);
    }
}

/// Whether `a` sorts strictly before `b`.
pub fn chars_lt(a: &[char], b: &[char]) -> (r: bool)
    ensures
        r == lex_lt(a@, b@),
{
    let mut i: usize = 0;
    assert(a@.skip(0) =~= a@);
    assert(b@.skip(0) =~= b@);
    while i < a.len() && i < b.len() && a[i] == b[i]
        invariant
            i <= a.len(),
            i <= b.len(),
            lex_lt(a@, b@) == lex_lt(a@.skip(i as int), b@.skip(i as int)),
        decreases a.len() - i,
    {
        assert(a@.skip(i as int).drop_first() =~= a@.skip(i as int + 1));
        assert(b@.skip(i as int).drop_first() =~= b@.skip(i as int + 1));
        i += 1;
    }
    if i == a.len() {
        i < b.len()
    } else if i == b.len() {
        false
    } else {
        (a[i] as u32) < (b[i] as u32)
    }
}

/// Whether string `a` sorts strictly before `b`.
pub fn str_lt(a: &str, b: &str) -> (r: bool)
    ensures
        r == lex_lt(a@, b@),
{
    chars_lt(&crate::text::chars_of(a), &crate::text::chars_of(b))
}

/// A sequence of `len` elements holds at most `len` distinct values, so among
/// `len + 1` distinct candidates one is missing.
pub proof fn lemma_pigeonhole<T>(s: Seq<T>, f: spec_fn(int) -> T, lo: int)
    requires
        forall|i: int, j: int|
            lo <= i <= lo + s.len() && lo <= j <= lo + s.len() && i != j ==> #[trigger] f(i)
                != #[trigger] f(j),
    ensures
        exists|k: int| lo <= k <= lo + s.len() && !s.contains(#[trigger] f(k)),
{
    if forall|k: int| lo <= k <= lo + s.len() ==> s.contains(#[trigger] f(k)) {
        let range = set_int_range(lo, lo + s.len() + 1);
        lemma_int_range(lo, lo + s.len() + 1);
        let img = range.map(f);
        assert(vstd::relations::injective_on(f, range)) by {
            assert forall|x: int, y: int|
                range.contains(x) && range.contains(y) && #[trigger] f(x) == #[trigger] f(y) implies x
                == y by {
                if x != y {
                    assert(f(x) != f(y));
                }
            }
        }
        lemma_map_size(range, img, f);
        assert(img.subset_of(s.to_set())) by {
            assert forall|t: T| img.contains(t) implies s.to_set().contains(t) by {
                let x = choose|x: int| range.contains(x) && f(x) == t;
                assert(s.contains(f(x)));
            }
        }
        vstd::seq_lib::seq_to_set_is_finite(s);
        lemma_len_subset(img, s.to_set());
        s.lemma_cardinality_of_set();
        assert(false);
    }
}

/// `a` sorts no later than `b`.
pub open spec fn lex_le(a: Seq<char>, b: Seq<char>) -> bool {
    lex_lt(a, b) || a == b
}

/// [`lex_le`] as a relation value.
pub open spec fn lex_order() -> spec_fn(Seq<char>, Seq<char>) -> bool {
    |a: Seq<char>, b: Seq<char>| lex_le(a, b)
}

/// Strings are totally ordered.
pub proof fn lemma_lex_order_total()
    ensures
        total_ordering(lex_order()),
{
    let r = lex_order();
    assert forall|x: Seq<char>, y: Seq<char>| #[trigger] r(x, y) && #[trigger] r(y, x) implies x
        == y by {
        lemma_lex_total(x, y);
    }
    assert forall|x: Seq<char>, y: Seq<char>, z: Seq<char>|
        #[trigger] r(x, y) && #[trigger] r(y, z) implies r(x, z) by {
        if lex_lt(x, y) && lex_lt(y, z) {
            lemma_lex_transitive(x, y, z);
        }
    }
    assert forall|x: Seq<char>, y: Seq<char>| #[trigger] r(x, y) || #[trigger] r(y, x) by {
        lemma_lex_total(x, y);
    }
}

/// A copy of `v` in ascending order.
pub fn sort_strings(v: &Vec<String>) -> (r: Vec<String>)
    ensures
        r.deep_view() == v.deep_view().sort_by(lex_order()),
{
    broadcast use vstd::seq_lib::group_to_multiset_ensures;

    let ghost leq = lex_order();
    proof {
        lemma_lex_order_total();
    }
    let ghost dv = v.deep_view();
    let mut out: Vec<String> = Vec::new();
    let mut i: usize = 0;
    while i < v.len()
        invariant
            i <= v.len(),
            dv == v.deep_view(),
            leq == lex_order(),
            total_ordering(leq),
            sorted_by(out.deep_view(), leq),
            out.deep_view().to_multiset() == dv.take(i as int).to_multiset(),
        decreases v.len() - i,
    {
        let e = v[i].clone();
        let ec = crate::text::chars_of(e.as_str());
        let ghost ev = e@;
        let ghost ov = out.deep_view();
        let mut j: usize = 0;
        while j < out.len() && (chars_lt(&crate::text::chars_of(out[j].as_str()), &ec)
            || crate::text::chars_eq(&crate::text::chars_of(out[j].as_str()), &ec))
            invariant
                j <= out.len(),
                ov == out.deep_view(),
                ev == e@,
                ec@ == ev,
                leq == lex_order(),
                forall|k: int| 0 <= k < j ==> leq(ov[k], ev),
            decreases out.len() - j,
        {
            assert(leq(ov[j as int], ev));
            j += 1;
        }
        proof {
            if j < out.len() {
                assert(!leq(ov[j as int], ev));
                assert(leq(ev, ov[j as int]));
                assert forall|k: int| j <= k < ov.len() implies leq(ev, #[trigger] ov[k]) by {
                    if k > j {
                        assert(leq(ov[j as int], ov[k]));
                    }
                }
            }
        }
        out.insert(j, e);
        proof {
            let nv = out.deep_view();
            assert(nv =~= ov.insert(j as int, ev));
            assert forall|a: int, b: int| 0 <= a < b < nv.len() implies #[trigger] leq(nv[a], nv[b]) by {
                if b < j {
                    assert(nv[a] == ov[a] && nv[b] == ov[b]);
                } else if b == j {
                    assert(nv[a] == ov[a]);
                } else if a == j {
                    assert(nv[b] == ov[b - 1]);
                } else if a < j {
                    assert(nv[a] == ov[a] && nv[b] == ov[b - 1]);
                    assert(leq(ov[a], ev));
                    assert(leq(ev, ov[b - 1]));
                } else {
                    assert(nv[a] == ov[a - 1] && nv[b] == ov[b - 1]);
                }
            }
            assert(dv.take(i as int + 1) =~= dv.take(i as int).push(ev));
            vstd::seq_lib::to_multiset_insert(ov, j as int, ev);
            vstd::seq_lib::to_multiset_build(dv.take(i as int), ev);
        }
        i += 1;
    }
    proof {
        assert(dv.take(v.len() as int) =~= dv);
        dv.lemma_sort_by_ensures(leq);
        vstd::seq_lib::lemma_sorted_unique(out.deep_view(), dv.sort_by(leq), leq);
    }
    out
}

// ───────────────────────────── keyed first occurrences ─────────────────────────────

/// A keyed triple as plain values.
pub open spec fn triple_view(t: (String, String, String)) -> (Seq<char>, Seq<char>, Seq<char>) {
    (t.0@, t.1@, t.2@)
}

/// Keyed triples as plain values.
pub open spec fn triples_view(v: Seq<(String, String, String)>) -> Seq<(Seq<char>, Seq<char>, Seq<char>)> {
    v.map_values(|t: (String, String, String)| triple_view(t))
}

/// The payload of the first item keyed `k`.
pub open spec fn first_payload(items: Seq<(Seq<char>, Seq<char>, Seq<char>)>, k: Seq<char>) -> Option<(Seq<char>, Seq<char>)>
    decreases items.len(),
{
    if items.len() == 0 {
        None
    } else if items[0].0 == k {
        Some((items[0].1, items[0].2))
    } else {
        first_payload(items.drop_first(), k)
    }
}

/// `out` holds each key of `items` once, in ascending key order, with the
/// payload of the key's first item.
pub open spec fn is_keyed_first(out: Seq<(Seq<char>, Seq<char>, Seq<char>)>, items: Seq<(Seq<char>, Seq<char>, Seq<char>)>) -> bool {
    &&& forall|i: int, j: int| 0 <= i < j < out.len() ==> lex_lt(#[trigger] out[i].0, #[trigger] out[j].0)
    &&& forall|i: int| 0 <= i < out.len() ==> first_payload(items, (#[trigger] out[i]).0) == Some((out[i].1, out[i].2))
    &&& forall|k: int| 0 <= k < items.len() ==> exists|i: int| 0 <= i < out.len() && (#[trigger] out[i]).0 == (#[trigger] items[k]).0
}

proof fn lemma_first_payload_push(items: Seq<(Seq<char>, Seq<char>, Seq<char>)>, x: (Seq<char>, Seq<char>, Seq<char>), k: Seq<char>)
    ensures
        first_payload(items.push(x), k) == (if first_payload(items, k) is Some {
            first_payload(items, k)
        } else if x.0 == k {
            Some((x.1, x.2))
        } else {
            None
        }),
    decreases items.len(),
{
    let p = items.push(x);
    if items.len() > 0 {
        assert(p.drop_first() =~= items.drop_first().push(x));
        assert(p[0] == items[0]);
        lemma_first_payload_push(items.drop_first(), x, k);
        if items[0].0 != k {
            assert(first_payload(p, k) == first_payload(items.drop_first().push(x), k));
            assert(first_payload(items, k) == first_payload(items.drop_first(), k));
        }
    } else {
        assert(p.drop_first() =~= Seq::<(Seq<char>, Seq<char>, Seq<char>)>::empty());
        assert(p[0] == x);
        assert(first_payload(p.drop_first(), k) is None);
        assert(first_payload(items, k) is None);
    }
}

proof fn lemma_first_payload_some(items: Seq<(Seq<char>, Seq<char>, Seq<char>)>, t: int)
    requires
        0 <= t < items.len(),
    ensures
        first_payload(items, items[t].0) is Some,
    decreases items.len(),
{
    if items[0].0 != items[t].0 {
        lemma_first_payload_some(items.drop_first(), t - 1);
    }
}

/// Keep the first item of every key, in ascending key order.
pub fn keyed_first(items: &Vec<(String, String, String)>) -> (r: Vec<(String, String, String)>)
    ensures
        is_keyed_first(triples_view(r@), triples_view(items@)),
{
    let ghost iv = triples_view(items@);
    let mut out: Vec<(String, String, String)> = Vec::new();
    let mut n: usize = 0;
    while n < items.len()
        invariant
            n <= items.len(),
            iv == triples_view(items@),
            is_keyed_first(triples_view(out@), iv.take(n as int)),
        decreases items.len() - n,
    {
        let ghost ov = triples_view(out@);
        let ghost pre = iv.take(n as int);
        let key = crate::text::chars_of(items[n].0.as_str());
        let ghost x = iv[n as int];
        assert(key@ == x.0);
        assert(iv.take(n as int + 1) =~= pre.push(x));
        let mut j: usize = 0;
        while j < out.len() && chars_lt(&crate::text::chars_of(out[j].0.as_str()), &key)
            invariant
                j <= out.len(),
                ov == triples_view(out@),
                key@ == x.0,
                forall|t: int| 0 <= t < j ==> lex_lt(#[trigger] ov[t].0, x.0),
            decreases out.len() - j,
        {
            assert(ov[j as int].0 == out@[j as int].0@);
            j += 1;
        }
        let present = j < out.len() && crate::text::chars_eq(&crate::text::chars_of(out[j].0.as_str()), &key);
        if present {
            proof {
                assert(ov[j as int].0 == x.0);
                assert forall|i: int| 0 <= i < ov.len() implies first_payload(
                    pre.push(x),
                    (#[trigger] ov[i]).0,
                ) == Some((ov[i].1, ov[i].2)) by {
                    lemma_first_payload_push(pre, x, ov[i].0);
                }
                assert forall|k: int| 0 <= k < pre.push(x).len() implies exists|i: int|
                    0 <= i < ov.len() && (#[trigger] ov[i]).0 == (#[trigger] pre.push(x)[k]).0 by {
                    if k < pre.len() {
                        assert(pre.push(x)[k] == pre[k]);
                    } else {
                        assert(ov[j as int].0 == pre.push(x)[k].0);
                    }
                }
            }
        } else {
            proof {
                if j < out.len() {
                    assert(ov[j as int].0 == out@[j as int].0@);
                    lemma_lex_total(ov[j as int].0, x.0);
                }
                assert forall|i: int| 0 <= i < ov.len() implies ov[i].0 != x.0 by {
                    if i < j {
                        lemma_lex_irreflexive(x.0);
                    } else if i > j {
                        lemma_lex_transitive(x.0, ov[j as int].0, ov[i].0);
                        lemma_lex_irreflexive(x.0);
                    }
                }
                assert(first_payload(pre, x.0) is None) by {
                    if first_payload(pre, x.0) is Some {
                        lemma_first_payload_witness(pre, x.0);
                        let t = choose|t: int| 0 <= t < pre.len() && pre[t].0 == x.0;
                        let i = choose|i: int| 0 <= i < ov.len() && (#[trigger] ov[i]).0 == (#[trigger] pre[t]).0;
                        assert(ov[i].0 == x.0);
                    }
                }
            }
            let a = items[n].0.clone();
            let b = items[n].1.clone();
            let c = items[n].2.clone();
            out.insert(j, (a, b, c));
            proof {
                let nv = triples_view(out@);
                assert(nv =~= ov.insert(j as int, x));
                let ps = pre.push(x);
                assert forall|p: int, q: int| 0 <= p < q < nv.len() implies lex_lt(
                    #[trigger] nv[p].0,
                    #[trigger] nv[q].0,
                ) by {
                    if q < j {
                        assert(nv[p] == ov[p] && nv[q] == ov[q]);
                    } else if q == j {
                        assert(nv[p] == ov[p]);
                    } else if p == j {
                        assert(nv[q] == ov[q - 1]);
                        if q - 1 > j {
                            lemma_lex_transitive(x.0, ov[j as int].0, ov[q - 1].0);
                        }
                    } else if p < j {
                        assert(nv[p] == ov[p] && nv[q] == ov[q - 1]);
                        if q - 1 > j {
                            lemma_lex_transitive(ov[p].0, x.0, ov[j as int].0);
                            lemma_lex_transitive(ov[p].0, ov[j as int].0, ov[q - 1].0);
                        } else {
                            lemma_lex_transitive(ov[p].0, x.0, ov[j as int].0);
                        }
                    } else {
                        assert(nv[p] == ov[p - 1] && nv[q] == ov[q - 1]);
                    }
                }
                assert forall|i: int| 0 <= i < nv.len() implies first_payload(ps, (#[trigger] nv[i]).0)
                    == Some((nv[i].1, nv[i].2)) by {
                    lemma_first_payload_push(pre, x, nv[i].0);
                    if i < j {
                        assert(nv[i] == ov[i]);
                    } else if i > j {
                        assert(nv[i] == ov[i - 1]);
                    }
                }
                assert forall|k: int| 0 <= k < ps.len() implies exists|i: int|
                    0 <= i < nv.len() && (#[trigger] nv[i]).0 == (#[trigger] ps[k]).0 by {
                    if k < pre.len() {
                        assert(ps[k] == pre[k]);
                        let i = choose|i: int| 0 <= i < ov.len() && (#[trigger] ov[i]).0 == (#[trigger] pre[k]).0;
                        if i < j {
                            assert(nv[i] == ov[i]);
                        } else {
                            assert(nv[i + 1] == ov[i]);
                        }
                    } else {
                        assert(nv[j as int].0 == ps[k].0);
                    }
                }
            }
        }
        n += 1;
    }
    assert(iv.take(items.len() as int) =~= iv);
    out
}

proof fn lemma_first_payload_witness(items: Seq<(Seq<char>, Seq<char>, Seq<char>)>, k: Seq<char>)
    requires
        first_payload(items, k) is Some,
    ensures
        exists|t: int| 0 <= t < items.len() && items[t].0 == k,
    decreases items.len(),
{
    if items[0].0 != k {
        lemma_first_payload_witness(items.drop_first(), k);
        let t = choose|t: int| 0 <= t < items.drop_first().len() && items.drop_first()[t].0 == k;
        assert(items[t + 1].0 == k);
    }
}

/// Some item carries a key whose first payload exists.
pub proof fn lemma_first_payload_witness_pub(items: Seq<(Seq<char>, Seq<char>, Seq<char>)>, k: Seq<char>)
    requires
        first_payload(items, k) is Some,
    ensures
        exists|t: int| 0 <= t < items.len() && items[t].0 == k,
{
    lemma_first_payload_witness(items, k);
}

} // verus!
