//! Graph-level identities: the embedding model id, the era year of a track,
//! and the build-input fingerprints that say when a graph must be rebuilt.

use vstd::prelude::*;
use vstd::relations::{sorted_by, total_ordering};
use vstd::utf8::encode_utf8;

use crate::order::{lemma_lex_irreflexive, lemma_lex_total, lemma_lex_transitive, lex_lt, chars_lt};
use crate::record::TagsDto;
use crate::text::{chars_of, concat, decimal, decimal_chars, string_of};

verus! {

/// Version of the graph schema (node, edge and property layout).
pub const GRAPH_SCHEMA_VERSION: u32 = 3;

/// The similarity-space version of the audio analyser the graph's embeddings
/// come from.
pub const SIMILARITY_VERSION: u32 = 2;

/// `"sonara-similarity-v<N>"` for similarity version `N`.
pub open spec fn embedding_model_id_of(version: nat) -> Seq<char> {
    seq!['s', 'o', 'n', 'a', 'r', 'a', '-', 's', 'i', 'm', 'i', 'l', 'a', 'r', 'i', 't', 'y', '-', 'v']
        + decimal(version)
}

/// The embedding-store model identity, derived from the similarity version.
pub fn embedding_model_id() -> (r: String)
    ensures
        r@ == embedding_model_id_of(SIMILARITY_VERSION as nat),
{
    let head = chars_of("sonara-similarity-v");
    proof {
        reveal_strlit("sonara-similarity-v");
    }
    string_of(&concat(&head, &decimal_chars(SIMILARITY_VERSION as u64)))
}

/// Which tag fed a track's era year.
pub open spec fn era_source_original() -> Seq<char> {
    seq!['o', 'r', 'i', 'g', 'i', 'n', 'a', 'l', '_', 'y', 'e', 'a', 'r']
}

pub open spec fn era_source_file() -> Seq<char> {
    seq!['f', 'i', 'l', 'e', '_', 'y', 'e', 'a', 'r']
}

/// The year used for era placement, with its source: the original release
/// year when tagged, else the file's year; `None` without either.
pub fn era_year(tags: Option<&TagsDto>) -> (r: Option<(u32, &'static str)>)
    ensures
        match tags {
            None => r is None,
            Some(t) => match (t.original_year, t.year) {
                (Some(oy), _) => r == Some((oy, r.unwrap().1)) && r.unwrap().1@ == era_source_original(),
                (None, Some(y)) => r == Some((y, r.unwrap().1)) && r.unwrap().1@ == era_source_file(),
                (None, None) => r is None,
            },
        },
{
    match tags {
        None => None,
        Some(t) => match t.original_year {
            Some(oy) => {
                let s = "original_year";
                proof {
                    reveal_strlit("original_year");
                }
                Some((oy, s))
            },
            None => match t.year {
                Some(y) => {
                    let s = "file_year";
                    proof {
                        reveal_strlit("file_year");
                    }
                    Some((y, s))
                },
                None => None,
            },
        },
    }
}

// ───────────────────────────── fingerprints ─────────────────────────────

/// The low `k` bytes of `n`, least significant first.
pub open spec fn le_bytes(n: nat, k: nat) -> Seq<u8>
    decreases k,
{
    if k == 0 {
        Seq::empty()
    } else {
        seq![(n % 256) as u8] + le_bytes(n / 256, (k - 1) as nat)
    }
}

/// A field as hashed: its length as a little-endian `u64`, then its bytes.
pub open spec fn framed(b: Seq<u8>) -> Seq<u8> {
    le_bytes(b.len(), 8) + b
}

/// The fields framed one after another.
pub open spec fn framed_all(fields: Seq<Seq<u8>>) -> Seq<u8>
    decreases fields.len(),
{
    if fields.len() == 0 {
        Seq::empty()
    } else {
        framed_all(fields.drop_last()) + framed(fields.last())
    }
}

/// Append the framing of `bytes` to `out`.
fn push_framed(out: &mut Vec<u8>, bytes: &[u8])
    ensures
        final(out)@ == old(out)@ + framed(bytes@),
{
    let mut n: u64 = bytes.len() as u64;
    let ghost start = out@;
    let mut k: usize = 0;
    while k < 8
        invariant
            k <= 8,
            out@ + le_bytes(n as nat, (8 - k) as nat) == start + le_bytes(bytes@.len(), 8),
        decreases 8 - k,
    {
        let ghost before = out@;
        out.push((n % 256) as u8);
        proof {
            assert(le_bytes(n as nat, (8 - k) as nat) =~= seq![(n % 256) as u8] + le_bytes(
                (n / 256) as nat,
                (8 - k - 1) as nat,
            ));
            assert(out@ + le_bytes((n / 256) as nat, (8 - k - 1) as nat) =~= before + le_bytes(
                n as nat,
                (8 - k) as nat,
            ));
        }
        n = n / 256;
        k += 1;
    }
    assert(le_bytes(n as nat, 0) =~= Seq::<u8>::empty());
    assert(out@ =~= start + le_bytes(bytes@.len(), 8));
    let mut i: usize = 0;
    let ghost mid = out@;
    while i < bytes.len()
        invariant
            i <= bytes.len(),
            out@ == mid + bytes@.take(i as int),
        decreases bytes.len() - i,
    {
        out.push(bytes[i]);
        assert(out@ =~= mid + bytes@.take(i as int + 1));
        i += 1;
    }
    assert(bytes@.take(bytes.len() as int) =~= bytes@);
    assert(out@ =~= old(out)@ + framed(bytes@));
}

/// A name for what `blake3::hash(data).to_hex()` gives: the lowercase hex
/// digest of `data`, a function of the bytes alone.
pub uninterp spec fn blake3_hex(data: Seq<u8>) -> Seq<char>;

/// `blake3::hash` followed by `Hash::to_hex`: the digest of `data` as 64
/// lowercase hexadecimal characters.
#[verifier::external_body]
fn blake3_hex_digest(data: &[u8]) -> (r: String)
    ensures
        r@ == blake3_hex(data@),
        r@.len() == 64,
{
    blake3::hash(data).to_hex().to_string()
}

/// A string pair as plain values.
pub open spec fn pair_view(p: (String, String)) -> (Seq<char>, Seq<char>) {
    (p.0@, p.1@)
}

/// String pairs as plain values.
pub open spec fn pairs_view(v: Seq<(String, String)>) -> Seq<(Seq<char>, Seq<char>)> {
    v.map_values(|p: (String, String)| pair_view(p))
}

/// The order of pairs: by first component, then by second.
pub open spec fn pair_leq(a: (Seq<char>, Seq<char>), b: (Seq<char>, Seq<char>)) -> bool {
    lex_lt(a.0, b.0) || (a.0 == b.0 && (lex_lt(a.1, b.1) || a.1 == b.1))
}

/// [`pair_leq`] as a relation value.
pub open spec fn pair_order() -> spec_fn((Seq<char>, Seq<char>), (Seq<char>, Seq<char>)) -> bool {
    |a: (Seq<char>, Seq<char>), b: (Seq<char>, Seq<char>)| pair_leq(a, b)
}

/// Pairs are totally ordered.
pub proof fn lemma_pair_order_total()
    ensures
        total_ordering(pair_order()),
{
    let r = pair_order();
    assert forall|x: (Seq<char>, Seq<char>)| #[trigger] r(x, x) by {}
    assert forall|x: (Seq<char>, Seq<char>), y: (Seq<char>, Seq<char>)|
        #[trigger] r(x, y) && #[trigger] r(y, x) implies x == y by {
        lemma_lex_total(x.0, y.0);
        lemma_lex_total(x.1, y.1);
    }
    assert forall|x: (Seq<char>, Seq<char>), y: (Seq<char>, Seq<char>), z: (Seq<char>, Seq<char>)|
        #[trigger] r(x, y) && #[trigger] r(y, z) implies r(x, z) by {
        if lex_lt(x.0, y.0) && lex_lt(y.0, z.0) {
            lemma_lex_transitive(x.0, y.0, z.0);
        }
        if lex_lt(x.1, y.1) && lex_lt(y.1, z.1) {
            lemma_lex_transitive(x.1, y.1, z.1);
        }
    }
    assert forall|x: (Seq<char>, Seq<char>), y: (Seq<char>, Seq<char>)|
        #[trigger] r(x, y) || #[trigger] r(y, x) by {
        lemma_lex_total(x.0, y.0);
        lemma_lex_total(x.1, y.1);
    }
}

/// Whether `a` sorts no later than `b`.
fn pair_le(a: &(String, String), b: &(String, String)) -> (r: bool)
    ensures
        r == pair_leq(pair_view(*a), pair_view(*b)),
{
    let a0 = chars_of(a.0.as_str());
    let b0 = chars_of(b.0.as_str());
    if chars_lt(&a0, &b0) {
        return true;
    }
    if !crate::text::chars_eq(&a0, &b0) {
        return false;
    }
    let a1 = chars_of(a.1.as_str());
    let b1 = chars_of(b.1.as_str());
    chars_lt(&a1, &b1) || crate::text::chars_eq(&a1, &b1)
}

/// A copy of `v` sorted by [`pair_leq`].
fn sort_pairs(v: &Vec<(String, String)>) -> (r: Vec<(String, String)>)
    ensures
        pairs_view(r@) == pairs_view(v@).sort_by(pair_order()),
{
    broadcast use vstd::seq_lib::group_to_multiset_ensures;

    let ghost leq = pair_order();
    proof {
        lemma_pair_order_total();
    }
    let mut out: Vec<(String, String)> = Vec::new();
    let mut i: usize = 0;
    while i < v.len()
        invariant
            i <= v.len(),
            leq == pair_order(),
            total_ordering(leq),
            sorted_by(pairs_view(out@), leq),
            pairs_view(out@).to_multiset() == pairs_view(v@.take(i as int)).to_multiset(),
        decreases v.len() - i,
    {
        let e = (v[i].0.clone(), v[i].1.clone());
        let ghost ev = pair_view(e);
        assert(ev == pair_view(v@[i as int]));
        let ghost ov = pairs_view(out@);
        let mut j: usize = 0;
        while j < out.len() && pair_le(&out[j], &e)
            invariant
                j <= out.len(),
                ov == pairs_view(out@),
                ev == pair_view(e),
                leq == pair_order(),
                forall|k: int| 0 <= k < j ==> leq(ov[k], ev),
            decreases out.len() - j,
        {
            assert(ov[j as int] == pair_view(out@[j as int]));
            assert(pair_leq(ov[j as int], ev));
            assert(leq(ov[j as int], ev));
            j += 1;
        }
        proof {
            if j < out.len() {
                assert(ov[j as int] == pair_view(out@[j as int]));
                assert(!leq(ov[j as int], ev));
                assert(leq(ev, ov[j as int]));
                assert forall|k: int| j <= k < ov.len() implies leq(ev, #[trigger] ov[k]) by {
                    if k > j {
                        assert(leq(ov[j as int], ov[k]));
                    }
                }
            }
        }
        out.insert(j, e);
        proof {
            let nv = pairs_view(out@);
            assert(nv =~= ov.insert(j as int, ev));
            assert forall|a: int, b: int| 0 <= a < b < nv.len() implies #[trigger] leq(nv[a], nv[b]) by {
                if b < j {
                    assert(nv[a] == ov[a] && nv[b] == ov[b]);
                } else if b == j {
                    assert(nv[a] == ov[a]);
                } else if a == j {
                    assert(nv[b] == ov[b - 1]);
                } else if a < j {
                    assert(nv[a] == ov[a] && nv[b] == ov[b - 1]);
                    assert(leq(ov[a], ev));
                    assert(leq(ev, ov[b - 1]));
                } else {
                    assert(nv[a] == ov[a - 1] && nv[b] == ov[b - 1]);
                }
            }
            assert(pairs_view(v@.take(i as int + 1)) =~= pairs_view(v@.take(i as int)).push(
                pair_view(v@[i as int]),
            ));
            vstd::seq_lib::to_multiset_insert(ov, j as int, ev);
            vstd::seq_lib::to_multiset_build(pairs_view(v@.take(i as int)), ev);
        }
        i += 1;
    }
    proof {
        assert(v@.take(v.len() as int) =~= v@);
        pairs_view(v@).lemma_sort_by_ensures(leq);
        vstd::seq_lib::lemma_sorted_unique(pairs_view(out@), pairs_view(v@).sort_by(leq), leq);
    }
    out
}

/// The UTF-8 bytes of `n` in decimal.
pub open spec fn decimal_bytes(n: nat) -> Seq<u8> {
    encode_utf8(decimal(n))
}

/// The framed `(content_hash, json)` entries, in order.
pub open spec fn entries_message(es: Seq<(Seq<char>, Seq<char>)>) -> Seq<u8>
    decreases es.len(),
{
    if es.len() == 0 {
        Seq::empty()
    } else {
        entries_message(es.drop_last()) + framed(encode_utf8(es.last().0)) + framed(
            encode_utf8(es.last().1),
        )
    }
}

/// The bytes hashed for a build-input fingerprint over `sorted` entries:
/// a domain tag, the analysis schema, similarity and graph schema versions,
/// the entry count, then every entry's hash and JSON, each field framed.
pub open spec fn build_input_message(
    tag: Seq<char>,
    sorted: Seq<(Seq<char>, Seq<char>)>,
    analysis_schema_version: nat,
) -> Seq<u8> {
    framed(encode_utf8(tag)) + framed(decimal_bytes(analysis_schema_version)) + framed(
        decimal_bytes(SIMILARITY_VERSION as nat),
    ) + framed(decimal_bytes(GRAPH_SCHEMA_VERSION as nat)) + framed(decimal_bytes(sorted.len()))
        + entries_message(sorted)
}

/// The domain tag of build-input fingerprints.
pub open spec fn build_input_tag() -> Seq<char> {
    seq!['s', 'o', 'n', 'a', 'g', 'r', 'a', 'm', '-', 'b', 'u', 'i', 'l', 'd', '-', 'i', 'n', 'p', 'u', 't', '-', 'v', '1']
}

/// The fingerprint of a set of `(content_hash, record_json)` entries: the
/// digest of the framed message over the entries in sorted order.
pub open spec fn build_input_fingerprint_of(
    entries: Seq<(Seq<char>, Seq<char>)>,
    analysis_schema_version: nat,
) -> Seq<char> {
    blake3_hex(
        build_input_message(
            build_input_tag(),
            entries.sort_by(pair_order()),
            analysis_schema_version,
        ),
    )
}

/// Append `n` in decimal, framed.
fn push_framed_decimal(out: &mut Vec<u8>, n: u64)
    ensures
        final(out)@ == old(out)@ + framed(decimal_bytes(n as nat)),
{
    let s = string_of(&decimal_chars(n));
    push_framed(out, s.as_str().as_bytes());
}

/// The versioned identity of the exact records a graph consumes, given each
/// record's content hash and serialized JSON: it moves when any record's
/// content or the analysis, similarity or graph schema changes, and not when
/// the records are merely listed in another order.
pub fn build_input_fingerprint(entries: &Vec<(String, String)>, analysis_schema_version: u32) -> (r:
    String)
    ensures
        r@ == build_input_fingerprint_of(pairs_view(entries@), analysis_schema_version as nat),
{
    let sorted = sort_pairs(entries);
    let ghost sv = pairs_view(sorted@);
    let mut msg: Vec<u8> = Vec::new();
    let tag = "sonagram-build-input-v1";
    proof {
        reveal_strlit("sonagram-build-input-v1");
        assert(tag@ == build_input_tag());
    }
    push_framed(&mut msg, tag.as_bytes());
    push_framed_decimal(&mut msg, analysis_schema_version as u64);
    push_framed_decimal(&mut msg, SIMILARITY_VERSION as u64);
    push_framed_decimal(&mut msg, GRAPH_SCHEMA_VERSION as u64);
    push_framed_decimal(&mut msg, sorted.len() as u64);
    let ghost head = msg@;
    assert(head == framed(encode_utf8(build_input_tag())) + framed(
        decimal_bytes(analysis_schema_version as nat),
    ) + framed(decimal_bytes(SIMILARITY_VERSION as nat)) + framed(
        decimal_bytes(GRAPH_SCHEMA_VERSION as nat),
    ) + framed(decimal_bytes(sv.len())));
    let mut i: usize = 0;
    while i < sorted.len()
        invariant
            i <= sorted.len(),
            sv == pairs_view(sorted@),
            msg@ == head + entries_message(sv.take(i as int)),
        decreases sorted.len() - i,
    {
        push_framed(&mut msg, sorted[i].0.as_str().as_bytes());
        push_framed(&mut msg, sorted[i].1.as_str().as_bytes());
        proof {
            assert(sv.take(i as int + 1).drop_last() =~= sv.take(i as int));
            assert(sv.take(i as int + 1).last() == sv[i as int]);
        }
        i += 1;
    }
    proof {
        assert(sv.take(sorted.len() as int) =~= sv);
        assert(msg@ == head + entries_message(sv));
        assert(msg@ == build_input_message(build_input_tag(), sv, analysis_schema_version as nat));
    }
    blake3_hex_digest(&msg)
}

/// Listing the same entries in another order gives the same fingerprint.
pub proof fn law_build_input_fingerprint_ignores_order(
    a: Seq<(Seq<char>, Seq<char>)>,
    b: Seq<(Seq<char>, Seq<char>)>,
    analysis_schema_version: nat,
)
    requires
        a.to_multiset() == b.to_multiset(),
    ensures
        build_input_fingerprint_of(a, analysis_schema_version) == build_input_fingerprint_of(
            b,
            analysis_schema_version,
        ),
{
    lemma_pair_order_total();
    a.lemma_sort_by_ensures(pair_order());
    b.lemma_sort_by_ensures(pair_order());
    vstd::seq_lib::lemma_sorted_unique(a.sort_by(pair_order()), b.sort_by(pair_order()), pair_order());
}

/// The domain tag of combined fingerprints.
pub open spec fn combined_tag() -> Seq<char> {
    seq!['s', 'o', 'n', 'a', 'g', 'r', 'a', 'm', '-', 'c', 'o', 'm', 'b', 'i', 'n', 'e', 'd', '-', 'b', 'u', 'i', 'l', 'd', '-', 'i', 'n', 'p', 'u', 't', '-', 'v', '1']
}

/// The roots strictly increase, as in a map keyed by root.
pub open spec fn keys_strictly_sorted(es: Seq<(Seq<char>, Seq<char>)>) -> bool {
    forall|i: int, j: int| 0 <= i < j < es.len() ==> lex_lt(#[trigger] es[i].0, #[trigger] es[j].0)
}

/// The fingerprint over every source's `(root, fingerprint)` in root order.
pub open spec fn combined_fingerprint_of(sources: Seq<(Seq<char>, Seq<char>)>) -> Seq<char> {
    blake3_hex(
        framed(encode_utf8(combined_tag())) + framed(decimal_bytes(sources.len())) + entries_message(
            sources,
        ),
    )
}

/// One fingerprint for a multi-source build: the framed root and fingerprint
/// of every source, in root order (the order of a map keyed by root).
pub fn combined_build_input_fingerprint(sources: &Vec<(String, String)>) -> (r: String)
    requires
        keys_strictly_sorted(pairs_view(sources@)),
    ensures
        r@ == combined_fingerprint_of(pairs_view(sources@)),
{
    let ghost sv = pairs_view(sources@);
    let mut msg: Vec<u8> = Vec::new();
    let tag = "sonagram-combined-build-input-v1";
    proof {
        reveal_strlit("sonagram-combined-build-input-v1");
        assert(tag@ == combined_tag());
    }
    push_framed(&mut msg, tag.as_bytes());
    push_framed_decimal(&mut msg, sources.len() as u64);
    let ghost head = msg@;
    let mut i: usize = 0;
    while i < sources.len()
        invariant
            i <= sources.len(),
            sv == pairs_view(sources@),
            msg@ == head + entries_message(sv.take(i as int)),
        decreases sources.len() - i,
    {
        push_framed(&mut msg, sources[i].0.as_str().as_bytes());
        push_framed(&mut msg, sources[i].1.as_str().as_bytes());
        proof {
            assert(sv.take(i as int + 1).drop_last() =~= sv.take(i as int));
            assert(sv.take(i as int + 1).last() == sv[i as int]);
        }
        i += 1;
    }
    proof {
        assert(sv.take(sources.len() as int) =~= sv);
    }
    blake3_hex_digest(&msg)
}

} // verus!
