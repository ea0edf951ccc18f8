//! The decisions of the command-line front end: exit codes and labels of a
//! freshness probe, argument parsing, and the short renderings its reports
//! print.

use vstd::prelude::*;

use crate::curation::PlaylistPreset;
use crate::enrich::{lemma_line_len, lemma_line_len_is, line_len, lines, strip_cr};
use crate::error::SonagramError;
use crate::text::{
    ascii_lower_seq, ascii_lowercase, chars_eq, chars_of, concat, decimal, decimal_chars, slice_chars,
    starts_with, string_of, trim, trim_ws,
};

verus! {

/// How the files of a library compare with its scan cache.
#[derive(Debug, Clone, Copy, PartialEq, Eq, Structural)]
pub struct FreshnessReport {
    pub total_files: usize,
    pub fresh: usize,
    /// Changed since they were indexed.
    pub stale: usize,
    /// On disk but not in the index.
    pub missing_from_index: usize,
    /// In the index but gone from disk.
    pub deleted_in_index: usize,
    /// An index exists at all.
    pub has_cache: bool,
}

/// The exit code of a freshness probe: 2 without a cache, 1 when anything
/// drifted, else 0.
pub open spec fn status_exit_code_of(r: FreshnessReport) -> i32 {
    if !r.has_cache {
        2
    } else if r.stale > 0 || r.missing_from_index > 0 || r.deleted_in_index > 0 {
        1
    } else {
        0
    }
}

/// The freshness exit code for a probe report.
pub fn status_exit_code(report: &FreshnessReport) -> (r: i32)
    ensures
        r == status_exit_code_of(*report),
{
    if !report.has_cache {
        2
    } else if report.stale > 0 || report.missing_from_index > 0 || report.deleted_in_index > 0 {
        1
    } else {
        0
    }
}

/// The worst of the exit codes (0 when there are none).
pub open spec fn worst_code(codes: Seq<i32>) -> i32
    decreases codes.len(),
{
    if codes.len() == 0 {
        0
    } else {
        let w = worst_code(codes.drop_last());
        if codes.last() > w {
            codes.last()
        } else {
            w
        }
    }
}

/// Some source has a graph that no longer matches its cache.
pub open spec fn any_stale(current: Seq<Option<bool>>) -> bool {
    exists|i: int| 0 <= i < current.len() && current[i] == Some(false)
}

/// The verdict of `status` over every configured source.
pub struct StatusSummary {
    pub exit_code: i32,
    pub label: &'static str,
    pub graph_stale: bool,
    pub needs_scan: bool,
}

/// Sum up `status` over the configured sources from their exit codes and
/// whether the graph is current for each (`None` without a graph): the
/// worst code, raised to 1 when the graph is missing or stale; the label of
/// the worst code, else `needs_build` for a stale graph, else `fresh`.
pub fn summarize_status(codes: &Vec<i32>, graph_present: bool, graph_current: &Vec<Option<bool>>) -> (r: StatusSummary)
    ensures
        r.needs_scan == (worst_code(codes@) != 0),
        r.graph_stale == (!graph_present || any_stale(graph_current@)),
        r.exit_code == (if r.graph_stale && worst_code(codes@) < 1 {
            1
        } else {
            worst_code(codes@)
        }),
        worst_code(codes@) == 0 && !r.graph_stale ==> r.label@ == "fresh"@,
        worst_code(codes@) == 0 && r.graph_stale ==> r.label@ == "needs_build"@,
        worst_code(codes@) == 2 ==> r.label@ == "no_cache"@,
        worst_code(codes@) != 0 && worst_code(codes@) != 2 ==> r.label@ == "needs_scan"@,
{
    let mut worst: i32 = 0;
    let mut i: usize = 0;
    while i < codes.len()
        invariant
            i <= codes.len(),
            worst == worst_code(codes@.take(i as int)),
        decreases codes.len() - i,
    {
        assert(codes@.take(i as int + 1).drop_last() =~= codes@.take(i as int));
        if codes[i] > worst {
            worst = codes[i];
        }
        i += 1;
    }
    assert(codes@.take(codes.len() as int) =~= codes@);
    let mut stale = false;
    let mut j: usize = 0;
    while j < graph_current.len()
        invariant
            j <= graph_current.len(),
            stale == exists|k: int| 0 <= k < j && graph_current@[k] == Some(false),
        decreases graph_current.len() - j,
    {
        if graph_current[j] == Some(false) {
            stale = true;
        }
        j += 1;
    }
    let graph_stale = !graph_present || stale;
    let exit_code = if graph_stale && worst < 1 {
        1
    } else {
        worst
    };
    let label = if worst != 0 {
        let l = status_label(worst);
        proof {
            reveal_strlit("no_cache");
            reveal_strlit("needs_scan");
        }
        l
    } else if graph_stale {
        "needs_build"
    } else {
        let l = "fresh";
        l
    };
    StatusSummary { exit_code, label, graph_stale, needs_scan: worst != 0 }
}

/// Whether the graph is current for a source: its stamped fingerprint
/// (absent on a source the graph lacks, empty on a legacy graph) equals the
/// fingerprint of the source's usable cache (absent when that cannot be
/// read).
pub fn source_graph_current(stamp: Option<Option<&str>>, current: Option<&str>) -> (r: bool)
    ensures
        r == match (stamp, current) {
            (Some(Some(s)), Some(c)) => s@ == c@,
            _ => false,
        },
{
    match (stamp, current) {
        (Some(Some(s)), Some(c)) => crate::text::chars_eq(&chars_of(s), &chars_of(c)),
        _ => false,
    }
}

/// The stable status word for an exit code.
pub fn status_label(exit_code: i32) -> (r: &'static str)
    ensures
        exit_code == 0 ==> r@ == seq!['f', 'r', 'e', 's', 'h'],
        exit_code == 2 ==> r@ == seq!['n', 'o', '_', 'c', 'a', 'c', 'h', 'e'],
        exit_code != 0 && exit_code != 2 ==> r@ == seq!['n', 'e', 'e', 'd', 's', '_', 's', 'c', 'a', 'n'],
{
    if exit_code == 0 {
        let s = "fresh";
        proof {
            reveal_strlit("fresh");
        }
        s
    } else if exit_code == 2 {
        let s = "no_cache";
        proof {
            reveal_strlit("no_cache");
        }
        s
    } else {
        let s = "needs_scan";
        proof {
            reveal_strlit("needs_scan");
        }
        s
    }
}

// ───────────────────────────── argument parsing ─────────────────────────────

/// The preset a case-insensitive (ASCII) name selects.
pub open spec fn preset_named(name: Seq<char>) -> Option<PlaylistPreset> {
    let l = ascii_lower_seq(name);
    if l == seq!['g', 'e', 'n', 'e', 'r', 'a', 'l'] {
        Some(PlaylistPreset::General)
    } else if l == seq!['f', 'o', 'c', 'u', 's'] {
        Some(PlaylistPreset::Focus)
    } else if l == seq!['p', 'a', 'r', 't', 'y'] {
        Some(PlaylistPreset::Party)
    } else if l == seq!['w', 'o', 'r', 'k', 'o', 'u', 't'] {
        Some(PlaylistPreset::Workout)
    } else if l == seq!['c', 'h', 'i', 'l', 'l'] {
        Some(PlaylistPreset::Chill)
    } else if l == seq!['d', 'i', 's', 'c', 'o', 'v', 'e', 'r', 'y'] {
        Some(PlaylistPreset::Discovery)
    } else {
        None
    }
}

/// The detail of an unknown preset.
pub open spec fn unknown_preset_detail(value: Seq<char>) -> Seq<char> {
    seq!['u', 'n', 'k', 'n', 'o', 'w', 'n', ' ', 'p', 'r', 'e', 's', 'e', 't', ' ', '\'']
        + value + seq![
        '\'', ' ', '(', 'e', 'x', 'p', 'e', 'c', 't', 'e', 'd', ' ', 'g', 'e', 'n', 'e', 'r', 'a',
        'l', '|', 'f', 'o', 'c', 'u', 's', '|', 'p', 'a', 'r', 't', 'y', '|', 'w', 'o', 'r', 'k',
        'o', 'u', 't', '|', 'c', 'h', 'i', 'l', 'l', '|', 'd', 'i', 's', 'c', 'o', 'v', 'e', 'r',
        'y', ')'
    ]
}

/// Parse a preset name, case-insensitively.
pub fn parse_preset(value: &str) -> (r: Result<PlaylistPreset, SonagramError>)
    ensures
        match preset_named(value@) {
            Some(p) => r == Ok::<PlaylistPreset, SonagramError>(p),
            None => r is Err && r->Err_0 is Playlist && r->Err_0.detail() == unknown_preset_detail(value@),
        },
{
    let l = ascii_lowercase(&chars_of(value));
    let names = [
        ("general", PlaylistPreset::General),
        ("focus", PlaylistPreset::Focus),
        ("party", PlaylistPreset::Party),
        ("workout", PlaylistPreset::Workout),
        ("chill", PlaylistPreset::Chill),
        ("discovery", PlaylistPreset::Discovery),
    ];
    let g = vec!['g', 'e', 'n', 'e', 'r', 'a', 'l'];
    let f = vec!['f', 'o', 'c', 'u', 's'];
    let p = vec!['p', 'a', 'r', 't', 'y'];
    let w = vec!['w', 'o', 'r', 'k', 'o', 'u', 't'];
    let c = vec!['c', 'h', 'i', 'l', 'l'];
    let d = vec!['d', 'i', 's', 'c', 'o', 'v', 'e', 'r', 'y'];
    proof {
        assert(g@ =~= seq!['g', 'e', 'n', 'e', 'r', 'a', 'l']);
        assert(f@ =~= seq!['f', 'o', 'c', 'u', 's']);
        assert(p@ =~= seq!['p', 'a', 'r', 't', 'y']);
        assert(w@ =~= seq!['w', 'o', 'r', 'k', 'o', 'u', 't']);
        assert(c@ =~= seq!['c', 'h', 'i', 'l', 'l']);
        assert(d@ =~= seq!['d', 'i', 's', 'c', 'o', 'v', 'e', 'r', 'y']);
    }
    if chars_eq(&l, &g) {
        Ok(PlaylistPreset::General)
    } else if chars_eq(&l, &f) {
        Ok(PlaylistPreset::Focus)
    } else if chars_eq(&l, &p) {
        Ok(PlaylistPreset::Party)
    } else if chars_eq(&l, &w) {
        Ok(PlaylistPreset::Workout)
    } else if chars_eq(&l, &c) {
        Ok(PlaylistPreset::Chill)
    } else if chars_eq(&l, &d) {
        Ok(PlaylistPreset::Discovery)
    } else {
        let head = chars_of("unknown preset '");
        let tail = chars_of("' (expected general|focus|party|workout|chill|discovery)");
        proof {
            reveal_strlit("unknown preset '");
            reveal_strlit("' (expected general|focus|party|workout|chill|discovery)");
        }
        let msg = concat(&concat(&head, &chars_of(value)), &tail);
        assert(msg@ =~= unknown_preset_detail(value@));
        Err(SonagramError::Playlist(string_of(&msg)))
    }
}

/// The pieces of `s` between commas, in order.
pub open spec fn comma_pieces(s: Seq<char>) -> Seq<Seq<char>>
    decreases s.len(),
{
    if s.len() == 0 {
        seq![Seq::empty()]
    } else {
        let rest = comma_pieces(s.drop_last());
        if s.last() == ',' {
            rest.push(Seq::empty())
        } else {
            rest.update(rest.len() - 1, rest.last().push(s.last()))
        }
    }
}

proof fn lemma_comma_pieces_nonempty(s: Seq<char>)
    ensures
        comma_pieces(s).len() >= 1,
    decreases s.len(),
{
    if s.len() > 0 {
        lemma_comma_pieces_nonempty(s.drop_last());
    }
}

/// The trimmed, non-blank pieces of a comma list.
pub open spec fn ids_of(pieces: Seq<Seq<char>>) -> Seq<Seq<char>>
    decreases pieces.len(),
{
    if pieces.len() == 0 {
        Seq::empty()
    } else {
        let prev = ids_of(pieces.drop_last());
        if trim(pieces.last()).len() > 0 {
            prev.push(trim(pieces.last()))
        } else {
            prev
        }
    }
}

/// Split a comma-separated id list, trimming each id and dropping blanks.
pub fn parse_ids(value: &str) -> (r: Vec<String>)
    ensures
        r.deep_view() == ids_of(comma_pieces(value@)),
{
    let v = chars_of(value);
    let ghost mut done: Seq<Seq<char>> = Seq::empty();
    let mut cur: Vec<char> = Vec::new();
    let mut out: Vec<String> = Vec::new();
    let mut i: usize = 0;
    assert(v@.take(0) =~= Seq::<char>::empty());
    assert(comma_pieces(Seq::<char>::empty()) =~= done.push(cur@));
    while i < v.len()
        invariant
            i <= v.len(),
            v@ == value@,
            comma_pieces(v@.take(i as int)) == done.push(cur@),
            out.deep_view() == ids_of(done),
        decreases v.len() - i,
    {
        assert(v@.take(i as int + 1).drop_last() =~= v@.take(i as int));
        if v[i] == ',' {
            let t = trim_ws(&cur);
            assert(done.push(cur@).drop_last() =~= done);
            if t.len() > 0 {
                let ghost o0 = out.deep_view();
                out.push(string_of(&t));
                assert(out.deep_view() =~= o0.push(t@));
            }
            proof {
                assert(done.push(cur@).drop_last() =~= done);
                done = done.push(cur@);
            }
            cur = Vec::new();
            assert(comma_pieces(v@.take(i as int + 1)) =~= done.push(cur@));
        } else {
            let ghost c0 = cur@;
            cur.push(v[i]);
            assert(comma_pieces(v@.take(i as int + 1)) =~= done.push(cur@)) by {
                let pv = done.push(c0);
                assert(pv.update(pv.len() - 1, pv.last().push(v@[i as int])) =~= done.push(cur@));
            }
        }
        i += 1;
    }
    assert(v@.take(v.len() as int) =~= v@);
    let t = trim_ws(&cur);
    proof {
        assert(done.push(cur@).drop_last() =~= done);
    }
    if t.len() > 0 {
        let ghost o0 = out.deep_view();
        out.push(string_of(&t));
        assert(out.deep_view() =~= o0.push(t@));
    }
    out
}

/// The detail of a bad `--format` value.
pub open spec fn bad_format_detail(command: Seq<char>, value: Seq<char>) -> Seq<char> {
    command + seq![
        ':', ' ', '-', '-', 'f', 'o', 'r', 'm', 'a', 't', ' ', 'e', 'x', 'p', 'e', 'c', 't', 's',
        ' ', 'j', 's', 'o', 'n', ' ', 'o', 'r', ' ', 'h', 'u', 'm', 'a', 'n', ',', ' ', 'g', 'o',
        't', ' '
    ] + value
}

/// Whether `--format <value>` asks for JSON.
pub fn parse_format_value(command: &str, value: &str) -> (r: Result<bool, SonagramError>)
    ensures
        value@ == seq!['j', 's', 'o', 'n'] ==> r == Ok::<bool, SonagramError>(true),
        value@ == seq!['h', 'u', 'm', 'a', 'n'] ==> r == Ok::<bool, SonagramError>(false),
        value@ != seq!['j', 's', 'o', 'n'] && value@ != seq!['h', 'u', 'm', 'a', 'n'] ==> r is Err
            && r->Err_0 is Playlist && r->Err_0.detail() == bad_format_detail(command@, value@),
{
    let v = chars_of(value);
    let j = vec!['j', 's', 'o', 'n'];
    let h = vec!['h', 'u', 'm', 'a', 'n'];
    assert(j@ =~= seq!['j', 's', 'o', 'n']);
    assert(h@ =~= seq!['h', 'u', 'm', 'a', 'n']);
    if chars_eq(&v, &j) {
        Ok(true)
    } else if chars_eq(&v, &h) {
        Ok(false)
    } else {
        let mid = chars_of(": --format expects json or human, got ");
        proof {
            reveal_strlit(": --format expects json or human, got ");
        }
        let msg = concat(&concat(&chars_of(command), &mid), &v);
        assert(msg@ =~= bad_format_detail(command@, value@));
        Err(SonagramError::Playlist(string_of(&msg)))
    }
}

/// The detail of unexpected output arguments.
pub open spec fn bad_output_args_detail(command: Seq<char>) -> Seq<char> {
    command + seq![
        ':', ' ', 'e', 'x', 'p', 'e', 'c', 't', 'e', 'd', ' ', 'o', 'n', 'l', 'y', ' ', '[', '-',
        '-', 'f', 'o', 'r', 'm', 'a', 't', ' ', 'j', 's', 'o', 'n', '|', 'h', 'u', 'm', 'a', 'n',
        ']'
    ]
}

/// Whether a command's trailing arguments ask for JSON output: none means
/// human output, `--json` JSON, `--format <json|human>` as named; anything
/// else is refused.
pub fn parse_output_format(command: &str, args: &Vec<String>) -> (r: Result<bool, SonagramError>)
    ensures
        args.len() == 0 ==> r == Ok::<bool, SonagramError>(false),
        args.len() == 1 && args[0]@ == seq!['-', '-', 'j', 's', 'o', 'n'] ==> r == Ok::<bool, SonagramError>(true),
        args.len() == 2 && args[0]@ == seq!['-', '-', 'f', 'o', 'r', 'm', 'a', 't'] ==> (
        args[1]@ == seq!['j', 's', 'o', 'n'] ==> r == Ok::<bool, SonagramError>(true)) && (args[1]@
            == seq!['h', 'u', 'm', 'a', 'n'] ==> r == Ok::<bool, SonagramError>(false)) && (args[1]@
            != seq!['j', 's', 'o', 'n'] && args[1]@ != seq!['h', 'u', 'm', 'a', 'n'] ==> r is Err
            && r->Err_0.detail() == bad_format_detail(command@, args[1]@)),
        !(args.len() == 0 || (args.len() == 1 && args[0]@ == seq!['-', '-', 'j', 's', 'o', 'n']) || (
        args.len() == 2 && args[0]@ == seq!['-', '-', 'f', 'o', 'r', 'm', 'a', 't'])) ==> r is Err
            && r->Err_0 is Playlist && r->Err_0.detail() == bad_output_args_detail(command@),
{
    let json_flag = vec!['-', '-', 'j', 's', 'o', 'n'];
    let format_flag = vec!['-', '-', 'f', 'o', 'r', 'm', 'a', 't'];
    assert(json_flag@ =~= seq!['-', '-', 'j', 's', 'o', 'n']);
    assert(format_flag@ =~= seq!['-', '-', 'f', 'o', 'r', 'm', 'a', 't']);
    if args.len() == 0 {
        return Ok(false);
    }
    if args.len() == 1 && chars_eq(&chars_of(args[0].as_str()), &json_flag) {
        return Ok(true);
    }
    if args.len() == 2 && chars_eq(&chars_of(args[0].as_str()), &format_flag) {
        return parse_format_value(command, args[1].as_str());
    }
    let tail = chars_of(": expected only [--format json|human]");
    proof {
        reveal_strlit(": expected only [--format json|human]");
    }
    let msg = concat(&chars_of(command), &tail);
    assert(msg@ =~= bad_output_args_detail(command@));
    Err(SonagramError::Playlist(string_of(&msg)))
}

/// The `idx`-th argument, unless it is a `--` flag.
pub fn optional_positional(args: &Vec<String>, idx: usize) -> (r: Option<&str>)
    ensures
        idx < args.len() && !seq!['-', '-'].is_prefix_of(args[idx as int]@) ==> r is Some
            && r->Some_0@ == args[idx as int]@,
        !(idx < args.len() && !seq!['-', '-'].is_prefix_of(args[idx as int]@)) ==> r is None,
{
    if idx >= args.len() {
        return None;
    }
    let dd = vec!['-', '-'];
    assert(dd@ =~= seq!['-', '-']);
    if starts_with(&chars_of(args[idx].as_str()), &dd) {
        None
    } else {
        Some(args[idx].as_str())
    }
}

/// `"<flag> requires a value"`.
pub open spec fn flag_needs_value_detail(flag: Seq<char>) -> Seq<char> {
    flag + seq![' ', 'r', 'e', 'q', 'u', 'i', 'r', 'e', 's', ' ', 'a', ' ', 'v', 'a', 'l', 'u', 'e']
}

/// Advance past a flag and take its value.
pub fn flag_value(args: &Vec<String>, i: &mut usize, flag: &str) -> (r: Result<String, SonagramError>)
    requires
        *old(i) < usize::MAX,
    ensures
        *final(i) == *old(i) + 1,
        *final(i) < args.len() ==> r is Ok && r->Ok_0@ == args[*final(i) as int]@,
        *final(i) >= args.len() ==> r is Err && r->Err_0 is Playlist && r->Err_0.detail()
            == flag_needs_value_detail(flag@),
{
    *i = *i + 1;
    if *i < args.len() {
        Ok(args[*i].clone())
    } else {
        let tail = chars_of(" requires a value");
        proof {
            reveal_strlit(" requires a value");
        }
        let msg = concat(&chars_of(flag), &tail);
        assert(msg@ =~= flag_needs_value_detail(flag@));
        Err(SonagramError::Playlist(string_of(&msg)))
    }
}

/// The first line of `s`, trimmed (empty for empty text).
pub open spec fn one_line_of(s: Seq<char>) -> Seq<char> {
    if s.len() == 0 {
        Seq::empty()
    } else {
        trim(lines(s)[0])
    }
}

/// The first line of `s`, trimmed, for a one-line listing.
pub fn one_line(s: &str) -> (r: String)
    ensures
        r@ == one_line_of(s@),
{
    let v = chars_of(s);
    if v.len() == 0 {
        return string_of(&v);
    }
    let mut j: usize = 0;
    while j < v.len() && v[j] != '\n'
        invariant
            j <= v.len(),
            forall|k: int| 0 <= k < j ==> v@[k] != '\n',
        decreases v.len() - j,
    {
        j += 1;
    }
    proof {
        lemma_line_len(v@);
        lemma_line_len_is(v@, j as nat);
    }
    let raw = slice_chars(&v, 0, j);
    let line = if j < v.len() && raw.len() > 0 && raw[raw.len() - 1] == '\r' {
        slice_chars(&raw, 0, raw.len() - 1)
    } else {
        raw
    };
    proof {
        if j == v.len() {
            assert(raw@ =~= v@);
        } else {
            assert(raw@ =~= v@.take(j as int));
            if raw.len() > 0 && raw@.last() == '\r' {
                assert(line@ =~= raw@.drop_last());
            }
        }
        assert(line@ == lines(v@)[0]);
    }
    string_of(&trim_ws(&line))
}

/// The detail when no source is configured.
pub open spec fn no_sources_detail() -> Seq<char> {
    seq![
        'n', 'o', ' ', 's', 'o', 'u', 'r', 'c', 'e', 's', ' ', 'c', 'o', 'n', 'f', 'i', 'g', 'u',
        'r', 'e', 'd', ' ', '—', ' ', 'a', 'd', 'd', ' ', 'o', 'n', 'e', ' ', 'w', 'i', 't', 'h',
        ' ', '`', 's', 'o', 'n', 'a', 'g', 'r', 'a', 'm', ' ', 's', 'o', 'u', 'r', 'c', 'e', 's',
        ' ', 'a', 'd', 'd', ' ', '<', 'd', 'i', 'r', '>', '`'
    ]
}

/// The configured source directories, or a hint to add one.
pub fn configured_source_paths(sources: &Vec<String>) -> (r: Result<Vec<String>, SonagramError>)
    ensures
        sources.len() == 0 ==> r is Err && r->Err_0 is Config && r->Err_0.detail() == no_sources_detail(),
        sources.len() > 0 ==> r is Ok && r->Ok_0.deep_view() == sources.deep_view(),
{
    if sources.len() == 0 {
        let m = "no sources configured — add one with `sonagram sources add <dir>`";
        proof {
            reveal_strlit("no sources configured — add one with `sonagram sources add <dir>`");
            assert(m@ =~= no_sources_detail());
        }
        return Err(SonagramError::Config(string_of(&chars_of(m))));
    }
    let mut out: Vec<String> = Vec::new();
    let mut i: usize = 0;
    while i < sources.len()
        invariant
            i <= sources.len(),
            out.deep_view() == sources.deep_view().take(i as int),
        decreases sources.len() - i,
    {
        let ghost o0 = out.deep_view();
        let c = sources[i].clone();
        assert(c@ == sources.deep_view()[i as int]);
        out.push(c);
        assert(out.deep_view() =~= o0.push(sources.deep_view()[i as int]));
        assert(out.deep_view() =~= sources.deep_view().take(i as int + 1));
        i += 1;
    }
    assert(sources.deep_view().take(sources.len() as int) =~= sources.deep_view());
    Ok(out)
}

// ───────────────────────────── renderings ─────────────────────────────

/// `n` in decimal with a minus sign when negative.
pub open spec fn signed_decimal(n: int) -> Seq<char> {
    if n < 0 {
        seq!['-'] + decimal((-n) as nat)
    } else {
        decimal(n as nat)
    }
}

/// The decimal digits of `n`, after a minus sign when it is negative.
pub fn signed_decimal_chars(n: i64) -> (r: Vec<char>)
    ensures
        r@ == signed_decimal(n as int),
{
    if n < 0 {
        let mag: u64 = if n == i64::MIN {
            0x8000_0000_0000_0000u64
        } else {
            (-n) as u64
        };
        let neg = vec!['-'];
        let d = decimal_chars(mag);
        concat(&neg, &d)
    } else {
        decimal_chars(n as u64)
    }
}

/// `n` (below 100) as two digits.
pub open spec fn two_digits(n: nat) -> Seq<char> {
    if n < 10 {
        seq!['0'] + decimal(n)
    } else {
        decimal(n)
    }
}

/// `"3m20s"`-style rendering of a second count: hours and minutes from an
/// hour on, minutes and seconds from a minute on, else seconds.
pub open spec fn human_secs_of(s: int) -> Seq<char> {
    if s >= 3600 {
        decimal((s / 3600) as nat) + seq!['h'] + two_digits(((s % 3600) / 60) as nat) + seq!['m']
    } else if s >= 60 {
        decimal((s / 60) as nat) + seq!['m'] + two_digits((s % 60) as nat) + seq!['s']
    } else {
        signed_decimal(s) + seq!['s']
    }
}

fn two_digit_chars(n: u64) -> (r: Vec<char>)
    requires
        n < 100,
    ensures
        r@ == two_digits(n as nat),
{
    let d = decimal_chars(n);
    if n < 10 {
        let z = vec!['0'];
        concat(&z, &d)
    } else {
        d
    }
}

/// Render a second count.
pub fn human_secs(s: i64) -> (r: String)
    ensures
        r@ == human_secs_of(s as int),
{
    if s >= 3600 {
        let h = decimal_chars((s / 3600) as u64);
        let m = two_digit_chars(((s % 3600) / 60) as u64);
        let mut out = h;
        out.push('h');
        let mut out = concat(&out, &m);
        out.push('m');
        string_of(&out)
    } else if s >= 60 {
        let m = decimal_chars((s / 60) as u64);
        let sec = two_digit_chars((s % 60) as u64);
        let mut out = m;
        out.push('m');
        let mut out = concat(&out, &sec);
        out.push('s');
        string_of(&out)
    } else {
        let mut out = signed_decimal_chars(s);
        out.push('s');
        string_of(&out)
    }
}

/// The marker for a snapshot that claims to be live but has not been
/// updated for over two minutes.
pub fn staleness(now: i64, updated_unix: i64, finished: bool) -> (r: &'static str)
    requires
        i64::MIN <= now - updated_unix <= i64::MAX,
    ensures
        !finished && now - updated_unix > 120 ==> r@ == seq![
            ' ', '[', 'S', 'T', 'A', 'L', 'E', ' ', '—', ' ', 'w', 'r', 'i', 't', 'e', 'r', ' ',
            'g', 'o', 'n', 'e', '?', ']'
        ],
        !(!finished && now - updated_unix > 120) ==> r@.len() == 0,
{
    if !finished && now - updated_unix > 120 {
        let s = " [STALE — writer gone?]";
        proof {
            reveal_strlit(" [STALE — writer gone?]");
        }
        s
    } else {
        let s = "";
        proof {
            reveal_strlit("");
        }
        s
    }
}

// ───────────────────────────── merging caches ─────────────────────────────

/// A cache record that may or may not carry usable data.
pub trait Usable {
    /// The record carries usable data.
    spec fn usable_spec(&self) -> bool;

    /// Whether the record carries usable data.
    fn is_usable(&self) -> (r: bool)
        ensures
            r == self.usable_spec(),
    ;
}

impl Usable for crate::enrich::ArtistEnrich {
    open spec fn usable_spec(&self) -> bool {
        self.fetched && !self.failed
    }

    fn is_usable(&self) -> (r: bool) {
        self.fetched && !self.failed
    }
}

impl Usable for crate::enrich::AlbumEnrich {
    open spec fn usable_spec(&self) -> bool {
        self.fetched && !self.failed
    }

    fn is_usable(&self) -> (r: bool) {
        self.fetched && !self.failed
    }
}

/// The value of the last entry keyed `k`.
pub open spec fn entry_of<T>(es: Seq<(String, T)>, k: Seq<char>) -> Option<T>
    decreases es.len(),
{
    if es.len() == 0 {
        None
    } else if es.last().0@ == k {
        Some(es.last().1)
    } else {
        entry_of(es.drop_last(), k)
    }
}

/// No key occurs twice.
pub open spec fn keys_distinct<T>(es: Seq<(String, T)>) -> bool {
    forall|i: int, j: int| 0 <= i < j < es.len() ==> (#[trigger] es[i]).0@ != (#[trigger] es[j]).0@
}

/// The entry a merge keeps for a key: the existing one unless it is
/// unusable and the incoming one is usable, or there is none.
pub open spec fn merged_entry<T: Usable>(existing: Option<T>, incoming: Option<T>) -> Option<T> {
    match (existing, incoming) {
        (None, x) => x,
        (Some(e), Some(n)) => if !e.usable_spec() && n.usable_spec() {
            Some(n)
        } else {
            Some(e)
        },
        (Some(e), None) => Some(e),
    }
}

proof fn lemma_entry_of_update<T>(es: Seq<(String, T)>, j: int, v: (String, T), k: Seq<char>)
    requires
        0 <= j < es.len(),
        keys_distinct(es),
        v.0@ == es[j].0@,
    ensures
        entry_of(es, es[j].0@) == Some(es[j].1),
        entry_of(es.update(j, v), k) == (if k == es[j].0@ {
            Some(v.1)
        } else {
            entry_of(es, k)
        }),
        keys_distinct(es.update(j, v)),
    decreases es.len(),
{
    let u = es.update(j, v);
    if j < es.len() - 1 {
        assert(u.drop_last() =~= es.drop_last().update(j, v));
        lemma_entry_of_update(es.drop_last(), j, v, k);
        assert(es.last().0@ != es[j].0@);
    } else {
        assert(u.drop_last() =~= es.drop_last());
        lemma_entry_of_absent(es.drop_last(), es[j].0@);
    }
}

proof fn lemma_entry_of_absent<T>(es: Seq<(String, T)>, k: Seq<char>)
    requires
        forall|i: int| 0 <= i < es.len() ==> (#[trigger] es[i]).0@ != k,
    ensures
        entry_of(es, k) is None,
    decreases es.len(),
{
    if es.len() > 0 {
        lemma_entry_of_absent(es.drop_last(), k);
    }
}

proof fn lemma_entry_of_found<T>(es: Seq<(String, T)>, j: int)
    requires
        0 <= j < es.len(),
        keys_distinct(es),
    ensures
        entry_of(es, es[j].0@) == Some(es[j].1),
    decreases es.len(),
{
    if j < es.len() - 1 {
        lemma_entry_of_found(es.drop_last(), j);
    }
}

/// Merge `src` into `dst`, key by key: a key `dst` lacks is added; a key it
/// holds is replaced only when its record is unusable and the incoming one
/// is usable.
pub fn merge_map_preferring_usable<T: Usable>(dst: &mut Vec<(String, T)>, src: Vec<(String, T)>)
    requires
        keys_distinct(old(dst)@),
        keys_distinct(src@),
    ensures
        keys_distinct(final(dst)@),
        forall|k: Seq<char>| #[trigger] entry_of(final(dst)@, k) == merged_entry(
            entry_of(old(dst)@, k),
            entry_of(src@, k),
        ),
{
    let ghost d0 = dst@;
    let ghost s0 = src@;
    let mut src = src;
    let mut taken: usize = 0;
    let ghost n = s0.len();
    assert(n == src.len());
    assert(s0.skip(0) =~= s0);
    assert(s0.take(0) =~= Seq::<(String, T)>::empty());
    while src.len() > 0
        invariant
            taken + src.len() == n,
            n <= usize::MAX,
            src@ == s0.skip(taken as int),
            n == s0.len(),
            keys_distinct(s0),
            keys_distinct(dst@),
            forall|k: Seq<char>| #[trigger] entry_of(dst@, k) == merged_entry(
                entry_of(d0, k),
                entry_of(s0.take(taken as int), k),
            ),
        decreases src.len(),
    {
        let ghost item = s0[taken as int];
        assert(src@[0] == item);
        let (key, value) = src.remove(0);
        assert((key, value) == item);
        assert(s0.skip(taken as int)[0] == item);
        assert(src@ =~= s0.skip(taken as int + 1));
        let kc = chars_of(key.as_str());
        let ghost dv = dst@;
        proof {
            assert(s0.take(taken as int + 1) =~= s0.take(taken as int).push(item));
            assert(s0.take(taken as int + 1).drop_last() =~= s0.take(taken as int));
            assert(s0.take(taken as int + 1).last() == item);
            assert forall|i: int| 0 <= i < taken implies (#[trigger] s0.take(taken as int)[i]).0@ != item.0@ by {
                assert(s0.take(taken as int)[i] == s0[i]);
            }
            lemma_entry_of_absent(s0.take(taken as int), item.0@);
        }
        let mut j: usize = 0;
        while j < dst.len() && !chars_eq(&chars_of(dst[j].0.as_str()), &kc)
            invariant
                j <= dst.len(),
                dv == dst@,
                kc@ == item.0@,
                forall|t: int| 0 <= t < j ==> (#[trigger] dv[t]).0@ != item.0@,
            decreases dst.len() - j,
        {
            j += 1;
        }
        let ghost pre = s0.take(taken as int);
        let ghost post = s0.take(taken as int + 1);
        proof {
            assert forall|k: Seq<char>| k != item.0@ implies #[trigger] entry_of(post, k) == entry_of(pre, k) by {
                assert(post.drop_last() =~= pre);
            }
            assert(entry_of(post, item.0@) == Some(item.1)) by {
                assert(post.last() == item);
            }
        }
        if j < dst.len() {
            proof {
                lemma_entry_of_found(dv, j as int);
                assert(entry_of(dv, item.0@) == merged_entry(entry_of(d0, item.0@), entry_of(pre, item.0@)));
            }
            let replace = !dst[j].1.is_usable() && value.is_usable();
            if replace {
                dst.set(j, (key, value));
                proof {
                    assert forall|k: Seq<char>| #[trigger] entry_of(dst@, k) == merged_entry(
                        entry_of(d0, k),
                        entry_of(post, k),
                    ) by {
                        lemma_entry_of_update(dv, j as int, item, k);
                        assert(entry_of(dv, k) == merged_entry(entry_of(d0, k), entry_of(pre, k)));
                    }
                    lemma_entry_of_update(dv, j as int, item, item.0@);
                }
            } else {
                proof {
                    assert forall|k: Seq<char>| #[trigger] entry_of(dst@, k) == merged_entry(
                        entry_of(d0, k),
                        entry_of(post, k),
                    ) by {
                        assert(entry_of(dv, k) == merged_entry(entry_of(d0, k), entry_of(pre, k)));
                    }
                }
            }
        } else {
            proof {
                lemma_entry_of_absent(dv, item.0@);
                assert(entry_of(dv, item.0@) == merged_entry(entry_of(d0, item.0@), entry_of(pre, item.0@)));
            }
            dst.push((key, value));
            proof {
                assert(dst@.drop_last() =~= dv);
                assert(dst@.last() == item);
                assert forall|i: int, t: int| 0 <= i < t < dst@.len() implies (#[trigger] dst@[i]).0@
                    != (#[trigger] dst@[t]).0@ by {
                    if t == dv.len() {
                        assert(dst@[i] == dv[i]);
                    } else {
                        assert(dst@[i] == dv[i] && dst@[t] == dv[t]);
                    }
                }
                assert forall|k: Seq<char>| #[trigger] entry_of(dst@, k) == merged_entry(
                    entry_of(d0, k),
                    entry_of(post, k),
                ) by {
                    assert(entry_of(dv, k) == merged_entry(entry_of(d0, k), entry_of(pre, k)));
                }
            }
        }
        taken += 1;
    }
    assert(s0.take(n as int) =~= s0);
}

// ───────────────────────────── names from paths ─────────────────────────────

/// A name for what `Path::file_name` gives for a path: its final component,
/// or nothing for a root, an empty path or one ending in `..`.
pub uninterp spec fn path_file_name(p: Seq<char>) -> Option<Seq<char>>;

/// A name for what `Path::file_stem` gives for a path: its final component
/// without its extension, or nothing when there is no final component.
pub uninterp spec fn path_file_stem(p: Seq<char>) -> Option<Seq<char>>;

/// `Path::file_name` on a UTF-8 path; the component is UTF-8 too, so the
/// lossy conversion is exact.
#[verifier::external_body]
fn file_name_of(p: &str) -> (r: Option<String>)
    ensures
        match path_file_name(p@) {
            Some(n) => r is Some && r->Some_0@ == n,
            None => r is None,
        },
{
    std::path::Path::new(p).file_name().map(|n| n.to_string_lossy().into_owned())
}

/// `Path::file_stem` on a UTF-8 path.
#[verifier::external_body]
fn file_stem_of(p: &str) -> (r: Option<String>)
    ensures
        match path_file_stem(p@) {
            Some(n) => r is Some && r->Some_0@ == n,
            None => r is None,
        },
{
    std::path::Path::new(p).file_stem().map(|n| n.to_string_lossy().into_owned())
}

/// A short label for a library: its last path component when there is a
/// non-empty one, else the whole root.
pub open spec fn library_label_of(root: Seq<char>) -> Seq<char> {
    match path_file_name(root) {
        Some(n) => if n.len() > 0 {
            n
        } else {
            root
        },
        None => root,
    }
}

/// The label of the library root node.
pub fn library_label(root: &str) -> (r: String)
    ensures
        r@ == library_label_of(root@),
{
    match file_name_of(root) {
        Some(n) => if n.as_str().is_empty() {
            root.to_owned()
        } else {
            n
        },
        None => root.to_owned(),
    }
}

/// The name of a copied playlist: the `--out` file's stem when one is given
/// (and has one), else the destination folder's name; `"playlist"` when
/// that name is missing or empty.
pub open spec fn playlist_name_of(out: Option<Seq<char>>, dest_dir: Seq<char>) -> Seq<char> {
    let stem = match out {
        Some(o) => path_file_stem(o),
        None => None,
    };
    let chosen = match stem {
        Some(s) => Some(s),
        None => path_file_name(dest_dir),
    };
    match chosen {
        Some(c) => if c.len() > 0 {
            c
        } else {
            seq!['p', 'l', 'a', 'y', 'l', 'i', 's', 't']
        },
        None => seq!['p', 'l', 'a', 'y', 'l', 'i', 's', 't'],
    }
}

/// The playlist name for a copy-folder export.
pub fn playlist_name(out: Option<&str>, dest_dir: &str) -> (r: String)
    ensures
        r@ == playlist_name_of(
            match out {
                Some(o) => Some(o@),
                None => None,
            },
            dest_dir@,
        ),
{
    let stem = match out {
        Some(o) => file_stem_of(o),
        None => None,
    };
    let chosen = match stem {
        Some(s) => Some(s),
        None => file_name_of(dest_dir),
    };
    let fallback = "playlist";
    proof {
        reveal_strlit("playlist");
    }
    match chosen {
        Some(c) => if c.as_str().is_empty() {
            fallback.to_owned()
        } else {
            c
        },
        None => fallback.to_owned(),
    }
}

// ───────────────────────────── fixture names ─────────────────────────────

/// A name for what `char::is_alphanumeric` says of a character: whether it
/// is alphabetic or numeric in Unicode.
pub uninterp spec fn unicode_alphanumeric(c: char) -> bool;

/// A name for what `char::to_lowercase` yields for a character: its full
/// Unicode lowercase mapping (one or more characters).
pub uninterp spec fn unicode_char_lowercase(c: char) -> Seq<char>;

/// `char::is_alphanumeric`.
#[verifier::external_body]
fn is_alphanumeric(c: char) -> (r: bool)
    ensures
        r == unicode_alphanumeric(c),
{
    c.is_alphanumeric()
}

/// `char::to_lowercase`, collected.
#[verifier::external_body]
fn char_to_lowercase(c: char) -> (r: Vec<char>)
    ensures
        r@ == unicode_char_lowercase(c),
{
    c.to_lowercase().collect()
}

/// The slug body before trimming: alphanumerics lowercased, and every run
/// of other characters turned into one `-`. `dash` says the text so far
/// ends in a dash run.
pub open spec fn slug_raw(s: Seq<char>) -> (Seq<char>, bool)
    decreases s.len(),
{
    if s.len() == 0 {
        (Seq::empty(), false)
    } else {
        let (out, dash) = slug_raw(s.drop_last());
        let c = s.last();
        if unicode_alphanumeric(c) {
            (out + unicode_char_lowercase(c), false)
        } else if !dash {
            (out.push('-'), true)
        } else {
            (out, true)
        }
    }
}

/// `s` without leading and trailing dashes.
pub open spec fn trim_dashes(s: Seq<char>) -> Seq<char>
    decreases s.len(),
{
    if s.len() > 0 && s[0] == '-' {
        trim_dashes(s.drop_first())
    } else if s.len() > 0 && s.last() == '-' {
        trim_dashes(s.drop_last())
    } else {
        s
    }
}

/// The fixture name of an audio file stem: its slug, or `"track"` when the
/// slug is empty.
pub open spec fn slugify_of(stem: Seq<char>) -> Seq<char> {
    let t = trim_dashes(slug_raw(stem).0);
    if t.len() == 0 {
        seq!['t', 'r', 'a', 'c', 'k']
    } else {
        t
    }
}

/// Trim dashes from both ends.
fn trim_dashes_exec(v: &Vec<char>) -> (r: Vec<char>)
    ensures
        r@ == trim_dashes(v@),
{
    let mut lo: usize = 0;
    let mut hi: usize = v.len();
    assert(v@.subrange(0, v.len() as int) =~= v@);
    while lo < hi && v[lo] == '-'
        invariant
            lo <= hi == v.len(),
            trim_dashes(v@) == trim_dashes(v@.subrange(lo as int, hi as int)),
        decreases hi - lo,
    {
        assert(v@.subrange(lo as int, hi as int).drop_first() =~= v@.subrange(lo as int + 1, hi as int));
        lo += 1;
    }
    assert(lo == hi || v@[lo as int] != '-');
    while lo < hi && v[hi - 1] == '-'
        invariant
            lo <= hi <= v.len(),
            lo < hi ==> v@[lo as int] != '-',
            trim_dashes(v@) == trim_dashes(v@.subrange(lo as int, hi as int)),
        decreases hi - lo,
    {
        assert(v@.subrange(lo as int, hi as int).drop_last() =~= v@.subrange(lo as int, hi as int - 1));
        assert(v@.subrange(lo as int, hi as int)[0] == v@[lo as int]);
        hi -= 1;
    }
    proof {
        let t = v@.subrange(lo as int, hi as int);
        if t.len() > 0 {
            assert(t[0] == v@[lo as int]);
            assert(t.last() == v@[hi - 1]);
        }
    }
    slice_chars(v, lo, hi)
}

/// The fixture file name for an audio file stem.
pub fn slugify(stem: &str) -> (r: String)
    ensures
        r@ == slugify_of(stem@),
{
    let v = chars_of(stem);
    let mut out: Vec<char> = Vec::new();
    let mut prev_dash = false;
    let mut i: usize = 0;
    while i < v.len()
        invariant
            i <= v.len(),
            v@ == stem@,
            slug_raw(v@.take(i as int)) == (out@, prev_dash),
        decreases v.len() - i,
    {
        assert(v@.take(i as int + 1).drop_last() =~= v@.take(i as int));
        let c = v[i];
        if is_alphanumeric(c) {
            let l = char_to_lowercase(c);
            out = concat(&out, &l);
            prev_dash = false;
        } else if !prev_dash {
            out.push('-');
            prev_dash = true;
        }
        i += 1;
    }
    assert(v@.take(v.len() as int) =~= v@);
    let t = trim_dashes_exec(&out);
    if t.len() == 0 {
        let s = "track";
        proof {
            reveal_strlit("track");
        }
        s.to_owned()
    } else {
        string_of(&t)
    }
}

} // verus!
