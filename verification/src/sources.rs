//! Merging the cached records of several sources into one library: the
//! sources are taken in root order, and each content hash belongs to the
//! first source that holds it.

use vstd::hash_set::StringHashSet;
use vstd::prelude::*;

use crate::order::{chars_lt, lemma_lex_total, lemma_lex_transitive, lex_lt, lex_order, sort_strings};
use crate::text::{chars_of, string_of};

verus! {

/// Source `a` comes before source `b`: by root, then by position.
pub open spec fn source_before(roots: Seq<Seq<char>>, a: int, b: int) -> bool {
    lex_lt(roots[a], roots[b]) || (roots[a] == roots[b] && a < b)
}

/// `order` lists every source position once, in root order.
pub open spec fn is_source_order(order: Seq<usize>, roots: Seq<Seq<char>>) -> bool {
    &&& order.len() == roots.len()
    &&& forall|i: int| 0 <= i < order.len() ==> (#[trigger] order[i]) < roots.len()
    &&& forall|i: int, j: int| 0 <= i < j < order.len() ==> source_before(roots, #[trigger] order[i] as int, #[trigger] order[j] as int)
    &&& forall|k: usize| k < roots.len() ==> #[trigger] order.contains(k)
}

proof fn lemma_place(rs: Seq<Seq<char>>, out: Seq<usize>, i: usize, p: int)
    requires
        0 <= p <= out.len(),
        i < rs.len(),
        forall|a: int| 0 <= a < out.len() ==> (#[trigger] out[a]) < i,
        forall|a: int, b: int| 0 <= a < b < out.len() ==> source_before(rs, #[trigger] out[a] as int, #[trigger] out[b] as int),
        forall|a: int| 0 <= a < p ==> !lex_lt(rs[i as int], rs[#[trigger] out[a] as int]),
        p < out.len() ==> lex_lt(rs[i as int], rs[out[p] as int]),
    ensures
        forall|a: int, b: int| 0 <= a < b < out.insert(p, i).len() ==> source_before(
            rs,
            #[trigger] out.insert(p, i)[a] as int,
            #[trigger] out.insert(p, i)[b] as int,
        ),
{
    let o2 = out.insert(p, i);
    assert forall|a: int, b: int| 0 <= a < b < o2.len() implies source_before(rs, #[trigger] o2[a] as int, #[trigger] o2[b] as int) by {
        if b < p {
            assert(o2[a] == out[a] && o2[b] == out[b]);
        } else if b == p {
            assert(o2[a] == out[a]);
            assert(o2[b] == i);
            assert(out[a] < i);
            assert(!lex_lt(rs[i as int], rs[out[a] as int]));
            lemma_lex_total(rs[i as int], rs[out[a] as int]);
        } else if a < p {
            assert(o2[a] == out[a] && o2[b] == out[b - 1]);
        } else if a == p {
            assert(o2[b] == out[b - 1]);
            assert(o2[a] == i);
            if b - 1 > p {
                assert(source_before(rs, out[p] as int, out[b - 1] as int));
                if lex_lt(rs[out[p] as int], rs[out[b - 1] as int]) {
                    lemma_lex_transitive(rs[i as int], rs[out[p] as int], rs[out[b - 1] as int]);
                }
            }
        } else {
            assert(o2[a] == out[a - 1] && o2[b] == out[b - 1]);
        }
    }
}

/// The positions of the sources, in root order (ties keep their order).
pub fn source_order(roots: &Vec<String>) -> (r: Vec<usize>)
    ensures
        is_source_order(r@, roots.deep_view()),
{
    let ghost rs = roots.deep_view();
    let mut out: Vec<usize> = Vec::new();
    let mut i: usize = 0;
    while i < roots.len()
        invariant
            i <= roots.len(),
            rs == roots.deep_view(),
            out.len() == i,
            forall|a: int| 0 <= a < out.len() ==> (#[trigger] out@[a]) < i,
            forall|a: int, b: int| 0 <= a < b < out.len() ==> source_before(rs, #[trigger] out@[a] as int, #[trigger] out@[b] as int),
            forall|k: usize| k < i ==> #[trigger] out@.contains(k),
        decreases roots.len() - i,
    {
        let ri = chars_of(roots[i].as_str());
        assert(rs[i as int] == ri@);
        let mut p: usize = 0;
        while p < out.len() && !chars_lt(&ri, &chars_of(roots[out[p]].as_str()))
            invariant
                p <= out.len(),
                i < roots.len(),
                rs == roots.deep_view(),
                ri@ == rs[i as int],
                forall|a: int| 0 <= a < out.len() ==> (#[trigger] out@[a]) < i,
                forall|a: int| 0 <= a < p ==> !lex_lt(rs[i as int], rs[#[trigger] out@[a] as int]),
            decreases out.len() - p,
        {
            assert(rs[out@[p as int] as int] == roots@[out@[p as int] as int]@);
            p += 1;
        }
        if p < out.len() {
            assert(rs[out@[p as int] as int] == roots@[out@[p as int] as int]@);
        }
        let ghost o0 = out@;
        proof {
            lemma_place(rs, o0, i, p as int);
            assert forall|k: usize| k < i implies #[trigger] o0.contains(k) by {
                assert(out@.contains(k));
            }
        }
        out.insert(p, i);
        assert(out@ =~= o0.insert(p as int, i));
        proof {
            assert forall|k: usize| k < i + 1 implies #[trigger] out@.contains(k) by {
                if k < i {
                    assert(o0.contains(k));
                    let t = choose|t: int| 0 <= t < o0.len() && o0[t] == k;
                    if t < p {
                        assert(out@[t] == o0[t]);
                    } else {
                        assert(out@[t + 1] == o0[t]);
                    }
                } else {
                    assert(out@[p as int] == i);
                }
            }
            assert forall|a: int| 0 <= a < out.len() implies (#[trigger] out@[a]) < i + 1 by {
                if a < p {
                    assert(out@[a] == o0[a]);
                } else if a > p {
                    assert(out@[a] == o0[a - 1]);
                }
            }
        }
        i += 1;
    }
    out
}

/// The (source, record) positions visited when the first `j` sources of
/// `order` are read in turn, each record in its order.
pub open spec fn visits(order: Seq<usize>, hs: Seq<Seq<Seq<char>>>, j: int) -> Seq<(int, int)>
    decreases j,
{
    if j <= 0 {
        Seq::empty()
    } else {
        let s = order[j - 1] as int;
        visits(order, hs, j - 1) + Seq::new(hs[s].len(), |k: int| (s, k))
    }
}

/// The hashes at the visited positions.
pub open spec fn hashes_at(vis: Seq<(int, int)>, hs: Seq<Seq<Seq<char>>>) -> Seq<Seq<char>> {
    Seq::new(vis.len(), |t: int| hs[vis[t].0][vis[t].1])
}

/// The positions among the first `m` visits whose hash was not met before:
/// the record each hash is taken from.
pub open spec fn firsts_upto(vis: Seq<(int, int)>, hs: Seq<Seq<Seq<char>>>, m: int) -> Seq<(int, int)>
    decreases m,
{
    if m <= 0 {
        Seq::empty()
    } else {
        let f = firsts_upto(vis, hs, m - 1);
        if hashes_at(vis, hs).take(m - 1).contains(hs[vis[m - 1].0][vis[m - 1].1]) {
            f
        } else {
            f.push(vis[m - 1])
        }
    }
}

/// How many of `fs` come from source `s`.
pub open spec fn won_by(fs: Seq<(int, int)>, s: int) -> nat
    decreases fs.len(),
{
    if fs.len() == 0 {
        0
    } else {
        won_by(fs.drop_last(), s) + if fs.last().0 == s {
            1nat
        } else {
            0nat
        }
    }
}

/// The library merged from several sources.
pub struct MergedSources {
    /// The source positions in root order.
    pub order: Vec<usize>,
    /// The (source, record) each distinct hash is taken from, in visiting order.
    pub firsts: Vec<(usize, usize)>,
    /// How many records each source contributes.
    pub counts: Vec<usize>,
    /// The hashes of the merged library, ascending.
    pub sorted_hashes: Vec<String>,
}

/// Pairs of positions as plain values.
pub open spec fn positions_view(v: Seq<(usize, usize)>) -> Seq<(int, int)> {
    Seq::new(v.len(), |t: int| (v[t].0 as int, v[t].1 as int))
}

/// Merge the sources with roots `roots` and record hashes `hashes`: visit
/// the sources in root order and take each hash from the first record that
/// has it; count the records each source contributes; list the merged
/// hashes in ascending order.
pub fn merge_sources(roots: &Vec<String>, hashes: &Vec<Vec<String>>) -> (r: MergedSources)
    requires
        roots.len() == hashes.len(),
    ensures
        is_source_order(r.order@, roots.deep_view()),
        ({
            let vis = visits(r.order@, hashes.deep_view(), roots.len() as int);
            let fs = firsts_upto(vis, hashes.deep_view(), vis.len() as int);
            &&& positions_view(r.firsts@) == fs
            &&& r.counts.len() == roots.len()
            &&& forall|s: int| 0 <= s < roots.len() ==> #[trigger] r.counts[s] == won_by(fs, s)
            &&& r.sorted_hashes.deep_view() == hashes_at(fs, hashes.deep_view()).sort_by(lex_order())
        }),
{
    let ghost hs = hashes.deep_view();
    let order = source_order(roots);
    let n = roots.len();
    let mut counts: Vec<usize> = Vec::new();
    let mut c: usize = 0;
    while c < n
        invariant
            c <= n,
            counts.len() == c,
            forall|s: int| 0 <= s < c ==> #[trigger] counts@[s] == 0,
        decreases n - c,
    {
        counts.push(0);
        c += 1;
    }
    let mut seen = StringHashSet::new();
    let mut firsts: Vec<(usize, usize)> = Vec::new();
    let mut first_hashes: Vec<String> = Vec::new();
    let ghost mut vis: Seq<(int, int)> = Seq::empty();
    let mut j: usize = 0;
    while j < n
        invariant
            j <= n,
            n == roots.len(),
            n == hashes.len(),
            hs == hashes.deep_view(),
            is_source_order(order@, roots.deep_view()),
            vis == visits(order@, hs, j as int),
            seen@ == hashes_at(vis, hs).to_set(),
            positions_view(firsts@) == firsts_upto(vis, hs, vis.len() as int),
            first_hashes.deep_view() == hashes_at(firsts_upto(vis, hs, vis.len() as int), hs),
            counts.len() == n,
            forall|s: int| 0 <= s < n ==> #[trigger] counts@[s] == won_by(firsts_upto(vis, hs, vis.len() as int), s),
            forall|t: int| 0 <= t < vis.len() ==> 0 <= #[trigger] vis[t].0 < n && 0 <= vis[t].1 < hs[vis[t].0].len(),
            firsts.len() <= vis.len(),
        decreases n - j,
    {
        let s = order[j];
        let list = &hashes[s];
        assert(hs[s as int] == list.deep_view());
        let ghost vis0 = vis;
        let mut k: usize = 0;
        while k < list.len()
            invariant
                k <= list.len(),
                j < n,
                n == hashes.len(),
                s < n,
                hs == hashes.deep_view(),
                list.deep_view() == hs[s as int],
                vis == vis0 + Seq::new(k as nat, |q: int| (s as int, q)),
                seen@ == hashes_at(vis, hs).to_set(),
                positions_view(firsts@) == firsts_upto(vis, hs, vis.len() as int),
                first_hashes.deep_view() == hashes_at(firsts_upto(vis, hs, vis.len() as int), hs),
                counts.len() == n,
                forall|x: int| 0 <= x < n ==> #[trigger] counts@[x] == won_by(firsts_upto(vis, hs, vis.len() as int), x),
                forall|t: int| 0 <= t < vis.len() ==> 0 <= #[trigger] vis[t].0 < n && 0 <= vis[t].1 < hs[vis[t].0].len(),
                firsts.len() <= vis.len(),
            decreases list.len() - k,
        {
            let h = list[k].as_str();
            assert(hs[s as int][k as int] == h@);
            let ghost m = vis.len();
            let ghost fs0 = firsts_upto(vis, hs, m as int);
            let ghost v2 = vis.push((s as int, k as int));
            assert(hashes_at(v2, hs).take(m as int) =~= hashes_at(vis, hs));
            assert(hashes_at(v2, hs) =~= hashes_at(vis, hs).push(h@));
            proof {
                assert(hashes_at(vis, hs).to_set().contains(h@) == hashes_at(vis, hs).contains(h@));
                assert forall|t: int| 0 <= t < m implies firsts_upto(v2, hs, t) == firsts_upto(vis, hs, t) by {
                    lemma_firsts_prefix(vis, v2, hs, t);
                }
                lemma_firsts_prefix(vis, v2, hs, m as int);
            }
            let fresh = seen.insert(string_of(&chars_of(h)));
            if fresh {
                let ghost f0 = positions_view(firsts@);
                firsts.push((s, k));
                assert(positions_view(firsts@) =~= f0.push((s as int, k as int)));
                let flen = firsts.len();
                assert(flen == fs0.len() + 1);
                let ghost fh0 = first_hashes.deep_view();
                first_hashes.push(string_of(&chars_of(h)));
                assert(first_hashes.deep_view() =~= fh0.push(h@));
                assert(hashes_at(fs0.push((s as int, k as int)), hs) =~= hashes_at(fs0, hs).push(h@));
                let old_count = counts[s];
                proof {
                    lemma_won_le(fs0, s as int);
                    assert(counts@[s as int] == won_by(fs0, s as int));
                    assert(fs0.push((s as int, k as int)).drop_last() =~= fs0);
                }
                counts.set(s, old_count + 1);
                proof {
                    assert forall|x: int| 0 <= x < n implies #[trigger] counts@[x] == won_by(fs0.push((s as int, k as int)), x) by {
                        assert(fs0.push((s as int, k as int)).drop_last() =~= fs0);
                    }
                }
            }
            proof {
                let a0 = hashes_at(vis, hs);
                assert(a0.push(h@) =~= a0 + seq![h@]);
                Seq::lemma_to_set_insert_commutes(a0, h@);
                vis = v2;
                assert(vis0 + Seq::new(k as nat + 1, |q: int| (s as int, q)) =~= v2);
            }
            k += 1;
        }
        proof {
            assert(Seq::new(list.len() as nat, |q: int| (s as int, q)) =~= Seq::new(hs[s as int].len(), |q: int| (s as int, q)));
            assert(visits(order@, hs, j as int + 1) == visits(order@, hs, j as int) + Seq::new(
                hs[order@[j as int] as int].len(),
                |q: int| (order@[j as int] as int, q),
            ));
        }
        j += 1;
    }
    let sorted_hashes = sort_strings(&first_hashes);
    MergedSources { order, firsts, counts, sorted_hashes }
}

proof fn lemma_firsts_prefix(vis: Seq<(int, int)>, v2: Seq<(int, int)>, hs: Seq<Seq<Seq<char>>>, t: int)
    requires
        0 <= t <= vis.len(),
        vis.len() <= v2.len(),
        forall|q: int| 0 <= q < vis.len() ==> v2[q] == vis[q],
    ensures
        firsts_upto(v2, hs, t) == firsts_upto(vis, hs, t),
    decreases t,
{
    if t > 0 {
        lemma_firsts_prefix(vis, v2, hs, t - 1);
        assert(hashes_at(v2, hs).take(t - 1) =~= hashes_at(vis, hs).take(t - 1));
    }
}

proof fn lemma_won_le(fs: Seq<(int, int)>, s: int)
    ensures
        won_by(fs, s) <= fs.len(),
    decreases fs.len(),
{
    if fs.len() > 0 {
        lemma_won_le(fs.drop_last(), s);
    }
}

/// Merging keeps every hash it meets exactly once: the merged hashes have
/// no duplicates, and each visited record's hash is among them.
pub proof fn law_merge_keeps_each_hash_once(vis: Seq<(int, int)>, hs: Seq<Seq<Seq<char>>>, m: int)
    requires
        0 <= m <= vis.len(),
    ensures
        hashes_at(firsts_upto(vis, hs, m), hs).no_duplicates(),
        forall|t: int| 0 <= t < m ==> hashes_at(firsts_upto(vis, hs, m), hs).contains(#[trigger] hashes_at(vis, hs)[t]),
        forall|t: int| 0 <= t < firsts_upto(vis, hs, m).len() ==> hashes_at(vis, hs).take(m).contains(
            #[trigger] hashes_at(firsts_upto(vis, hs, m), hs)[t],
        ),
    decreases m,
{
    if m > 0 {
        law_merge_keeps_each_hash_once(vis, hs, m - 1);
        let f = firsts_upto(vis, hs, m - 1);
        let hf = hashes_at(f, hs);
        let hv = hashes_at(vis, hs);
        let h = hv[m - 1];
        assert(h == hs[vis[m - 1].0][vis[m - 1].1]);
        if hv.take(m - 1).contains(h) {
            let t = choose|t: int| 0 <= t < hv.take(m - 1).len() && #[trigger] hv.take(m - 1)[t] == h;
            assert(hv[t] == h);
            assert(hf.contains(hv[t]));
            assert forall|t2: int| 0 <= t2 < f.len() implies hv.take(m).contains(#[trigger] hf[t2]) by {
                assert(hv.take(m - 1).contains(hf[t2]));
                let u = choose|u: int| 0 <= u < hv.take(m - 1).len() && #[trigger] hv.take(m - 1)[u] == hf[t2];
                assert(hv.take(m)[u] == hv.take(m - 1)[u]);
            }
        } else {
            let f2 = f.push(vis[m - 1]);
            assert(hashes_at(f2, hs) =~= hf.push(h));
            assert forall|t: int| 0 <= t < hf.len() implies hf[t] != h by {
                assert(hv.take(m - 1).contains(hf[t]));
            }
            assert forall|t: int| 0 <= t < f2.len() implies hv.take(m).contains(#[trigger] hashes_at(f2, hs)[t]) by {
                if t < hf.len() {
                    assert(hashes_at(f2, hs)[t] == hf[t]);
                    assert(hv.take(m - 1).contains(hf[t]));
                    let u = choose|u: int| 0 <= u < hv.take(m - 1).len() && #[trigger] hv.take(m - 1)[u] == hf[t];
                    assert(hv.take(m)[u] == hv.take(m - 1)[u]);
                } else {
                    assert(hv.take(m)[m - 1] == h);
                }
            }
            assert forall|t: int| 0 <= t < m implies hashes_at(f2, hs).contains(#[trigger] hv[t]) by {
                if t < m - 1 {
                    let u = choose|u: int| 0 <= u < hf.len() && #[trigger] hf[u] == hv[t];
                    assert(hashes_at(f2, hs)[u] == hf[u]);
                } else {
                    assert(hashes_at(f2, hs)[hf.len() as int] == h);
                }
            }
        }
    }
}

} // verus!
