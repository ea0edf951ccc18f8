//! The checks of a finished track list against the graph and the brief it
//! was made for: repeated and unknown ids, eligibility per position, the
//! target count, the preset, unsupported intents, and the seeds. Checks on
//! audio numbers are made by the caller and placed between these.

use vstd::prelude::*;

use crate::audit::{
    audit_passed, cap_issues_of, diversity_audit, DiversityAudit, gap_issues_of, is_distinct_keys, issue_view, issues_view,
};
use crate::curation::{AuditIssue, AuditSeverity, DiversityPolicy, PlaylistPreset, SeedRole};
use crate::derive::{index_in, ints_of, lemma_last_index, position_of};
use crate::graph::pairs_view;
use crate::playlist::contains_chars;
use crate::select::{error_view, is_reference_role, issue_lists_view};
use crate::text::{chars_of, concat, decimal, decimal_chars, string_of};

verus! {

/// An issue as plain values.
pub open spec fn located(code: Seq<char>, message: Seq<char>, position: nat) -> (AuditSeverity, Seq<char>, Seq<char>, Seq<usize>) {
    (AuditSeverity::Error, code, message, seq![position as usize])
}

/// The eligibility issues of a track, each placed at `position`.
pub open spec fn placed(list: Seq<(Seq<char>, Seq<char>)>, position: nat) -> Seq<(AuditSeverity, Seq<char>, Seq<char>, Seq<usize>)> {
    Seq::new(list.len(), |i: int| located(list[i].0, list[i].1, position))
}

/// The checks of the first `n` ids of a track list, as (issues, positions of
/// the known tracks in list order, number of repeated ids): a repeated id is
/// reported at its 1-based position; a known id contributes its eligibility
/// issues at that position; an unknown one is reported missing.
pub open spec fn track_list_of(
    ids: Seq<Seq<char>>,
    known: Seq<Seq<char>>,
    elig: Seq<Seq<(Seq<char>, Seq<char>)>>,
    n: int,
) -> (Seq<(AuditSeverity, Seq<char>, Seq<char>, Seq<usize>)>, Seq<int>, nat)
    decreases n,
{
    if n <= 0 {
        (Seq::empty(), Seq::empty(), 0)
    } else {
        let (iss, sel, d) = track_list_of(ids, known, elig, n - 1);
        let id = ids[n - 1];
        let dup = ids.take(n - 1).contains(id);
        let iss1 = if dup {
            iss.push(located("duplicate_track"@, "track id "@ + id + " occurs more than once"@, n as nat))
        } else {
            iss
        };
        let d1 = if dup {
            d + 1
        } else {
            d
        };
        match index_in(known, id) {
            Some(t) => (iss1 + placed(elig[t], n as nat), sel.push(t), d1),
            None => (
                iss1.push(located("missing_track"@, "track id "@ + id + " is not present in the graph"@, n as nat)),
                sel,
                d1,
            ),
        }
    }
}

/// What the checks of a track list found.
pub struct TrackListCheck {
    pub issues: Vec<AuditIssue>,
    /// Positions (among the known tracks) of the listed tracks found.
    pub selected: Vec<usize>,
    /// How many ids repeat an earlier one.
    pub duplicate_ids: usize,
}

fn located_issue(code: &str, message: &[char], position: usize) -> (r: AuditIssue)
    ensures
        issue_view(r) == located(code@, message@, position as nat),
{
    let r = AuditIssue {
        severity: AuditSeverity::Error,
        code: string_of(&chars_of(code)),
        message: string_of(message),
        positions: vec![position],
    };
    assert(r.positions@ =~= seq![position]);
    r
}

/// Check a track list (see [`track_list_of`]) against the ids of the known
/// tracks and the eligibility issues of each.
pub fn check_track_list(
    track_ids: &Vec<String>,
    known_ids: &Vec<String>,
    eligibility: &Vec<Vec<(String, String)>>,
) -> (r: TrackListCheck)
    requires
        eligibility.len() == known_ids.len(),
        track_ids.len() < usize::MAX,
    ensures
        (issues_view(r.issues@), ints_of(r.selected@), r.duplicate_ids as nat) == track_list_of(
            track_ids.deep_view(),
            known_ids.deep_view(),
            issue_lists_view(eligibility@),
            track_ids.len() as int,
        ),
{
    let ghost ids = track_ids.deep_view();
    let ghost known = known_ids.deep_view();
    let ghost ev = issue_lists_view(eligibility@);
    let mut seen: Vec<String> = Vec::new();
    let mut issues: Vec<AuditIssue> = Vec::new();
    let mut selected: Vec<usize> = Vec::new();
    let mut dups: usize = 0;
    assert(issues_view(issues@) =~= Seq::<(AuditSeverity, Seq<char>, Seq<char>, Seq<usize>)>::empty());
    assert(ints_of(selected@) =~= Seq::<int>::empty());
    let mut i: usize = 0;
    while i < track_ids.len()
        invariant
            i <= track_ids.len(),
            track_ids.len() < usize::MAX,
            ids == track_ids.deep_view(),
            known == known_ids.deep_view(),
            ev == issue_lists_view(eligibility@),
            eligibility.len() == known_ids.len(),
            seen.deep_view() == ids.take(i as int),
            dups <= i,
            (issues_view(issues@), ints_of(selected@), dups as nat) == track_list_of(ids, known, ev, i as int),
        decreases track_ids.len() - i,
    {
        let id = chars_of(track_ids[i].as_str());
        assert(ids[i as int] == id@);
        let position = i + 1;
        if contains_chars(&seen, &id) {
            let msg = concat(&concat(&chars_of("track id "), &id), &chars_of(" occurs more than once"));
            let ghost i0 = issues_view(issues@);
            let item = located_issue("duplicate_track", &msg, position);
            let ghost iv = issue_view(item);
            issues.push(item);
            assert(issues_view(issues@) =~= i0.push(iv));
            dups += 1;
        }
        let ghost mid = issues_view(issues@);
        let ghost s0 = seen.deep_view();
        seen.push(string_of(&id));
        assert(seen.deep_view() =~= s0.push(id@));
        assert(ids.take(i as int + 1) =~= ids.take(i as int).push(ids[i as int]));
        let found = position_of(known_ids, track_ids[i].as_str());
        proof {
            lemma_last_index(known, id@, known.len() as int);
        }
        match found {
            Some(t) => {
                assert(ev[t as int] == pairs_view(eligibility@[t as int]@));
                let list = &eligibility[t];
                let mut j: usize = 0;
                while j < list.len()
                    invariant
                        j <= list.len(),
                        list@ == eligibility@[t as int]@,
                        ev[t as int] == pairs_view(list@),
                        issues_view(issues@) == mid + placed(ev[t as int], position as nat).take(j as int),
                    decreases list.len() - j,
                {
                    let ghost i1 = issues_view(issues@);
                    let m = chars_of(list[j].1.as_str());
                    let item = located_issue(list[j].0.as_str(), &m, position);
                    issues.push(item);
                    assert(placed(ev[t as int], position as nat).take(j as int + 1) =~= placed(
                        ev[t as int],
                        position as nat,
                    ).take(j as int).push(located(list@[j as int].0@, list@[j as int].1@, position as nat)));
                    assert(issues_view(issues@) =~= i1.push(located(list@[j as int].0@, list@[j as int].1@, position as nat)));
                    j += 1;
                }
                assert(placed(ev[t as int], position as nat).take(list.len() as int) =~= placed(
                    ev[t as int],
                    position as nat,
                ));
                let ghost sel0 = ints_of(selected@);
                selected.push(t);
                assert(ints_of(selected@) =~= sel0.push(t as int));
            },
            None => {
                let msg = concat(&concat(&chars_of("track id "), &id), &chars_of(" is not present in the graph"));
                issues.push(located_issue("missing_track", &msg, position));
                assert(issues_view(issues@) =~= mid.push(
                    located("missing_track"@, "track id "@ + id@ + " is not present in the graph"@, position as nat),
                ));
            },
        }
        i += 1;
    }
    TrackListCheck { issues, selected, duplicate_ids: dups }
}

/// An unplaced error issue.
fn error_issue(code: &str, message: &[char]) -> (r: AuditIssue)
    ensures
        issue_view(r) == error_view(code@, message@),
{
    let r = AuditIssue {
        severity: AuditSeverity::Error,
        code: string_of(&chars_of(code)),
        message: string_of(message),
        positions: Vec::new(),
    };
    assert(r.positions@ =~= Seq::<usize>::empty());
    r
}

/// One error per intent of the brief that the typed contract cannot hold.
pub open spec fn intent_issues_of(unsupported: Seq<Seq<char>>) -> Seq<(AuditSeverity, Seq<char>, Seq<char>, Seq<usize>)> {
    Seq::new(
        unsupported.len(),
        |i: int| error_view("unsupported_intent"@, "typed curation contract cannot enforce: "@ + unsupported[i]),
    )
}

/// The errors for the intents of a brief that cannot be enforced.
pub fn intent_issues(unsupported: &Vec<String>) -> (r: Vec<AuditIssue>)
    ensures
        issues_view(r@) == intent_issues_of(unsupported.deep_view()),
{
    let ghost u = unsupported.deep_view();
    let mut out: Vec<AuditIssue> = Vec::new();
    let mut i: usize = 0;
    while i < unsupported.len()
        invariant
            i <= unsupported.len(),
            u == unsupported.deep_view(),
            issues_view(out@) == intent_issues_of(u).take(i as int),
        decreases unsupported.len() - i,
    {
        let ghost o0 = issues_view(out@);
        let msg = concat(&chars_of("typed curation contract cannot enforce: "), &chars_of(unsupported[i].as_str()));
        let item = error_issue("unsupported_intent", &msg);
        out.push(item);
        assert(intent_issues_of(u).take(i as int + 1) =~= o0.push(intent_issues_of(u)[i as int]));
        assert(issues_view(out@) =~= o0.push(intent_issues_of(u)[i as int]));
        i += 1;
    }
    assert(intent_issues_of(u).take(unsupported.len() as int) =~= intent_issues_of(u));
    out
}

/// The error, if any, about the number of tracks: a zero target, or a list
/// of another length than the target.
pub open spec fn count_issues_of(target: nat, count: nat) -> Seq<(AuditSeverity, Seq<char>, Seq<char>, Seq<usize>)> {
    if target == 0 {
        seq![error_view("invalid_target"@, "target_tracks must be greater than zero"@)]
    } else if count != target {
        seq![
            error_view(
                "target_track_count"@,
                "playlist has "@ + decimal(count) + " IDs but the brief requires "@ + decimal(target),
            ),
        ]
    } else {
        Seq::empty()
    }
}

/// Check the number of tracks against the target of the brief.
pub fn count_issues(target_tracks: usize, track_count: usize) -> (r: Vec<AuditIssue>)
    ensures
        issues_view(r@) == count_issues_of(target_tracks as nat, track_count as nat),
        target_tracks > 0 ==> (r@.len() > 0 <==> track_count != target_tracks),
        r@.len() <= 1,
{
    let mut out: Vec<AuditIssue> = Vec::new();
    if target_tracks == 0 {
        out.push(error_issue("invalid_target", &chars_of("target_tracks must be greater than zero")));
    } else if track_count != target_tracks {
        let msg = concat(
            &concat(
                &concat(&chars_of("playlist has "), &decimal_chars(track_count as u64)),
                &chars_of(" IDs but the brief requires "),
            ),
            &decimal_chars(target_tracks as u64),
        );
        out.push(error_issue("target_track_count", &msg));
    }
    assert(issues_view(out@) =~= count_issues_of(target_tracks as nat, track_count as nat));
    out
}

/// With a positive target, the track-count check raises an error exactly
/// when the playlist has another number of tracks than the target, too few
/// or too many, and that error is a `target_track_count` error; a zero
/// target is always a single `invalid_target` error.
pub proof fn law_count_error_iff_length_differs(target: nat, count: nat)
    ensures
        target > 0 ==> (count_issues_of(target, count).len() > 0 <==> count != target),
        target > 0 && count > target ==> count_issues_of(target, count).len() == 1,
        target > 0 && count < target ==> count_issues_of(target, count).len() == 1,
        target == 0 ==> count_issues_of(target, count).len() == 1,
        count_issues_of(target, count).len() <= 1,
        forall|t: int|
            0 <= t < count_issues_of(target, count).len() ==> (#[trigger] count_issues_of(target, count)[t]).0
                == AuditSeverity::Error && count_issues_of(target, count)[t].1 == (if target == 0 {
                "invalid_target"@
            } else {
                "target_track_count"@
            }),
{
}

/// The name of a preset as the reports print it.
pub open spec fn preset_label(p: PlaylistPreset) -> Seq<char> {
    match p {
        PlaylistPreset::General => "General"@,
        PlaylistPreset::Focus => "Focus"@,
        PlaylistPreset::Party => "Party"@,
        PlaylistPreset::Workout => "Workout"@,
        PlaylistPreset::Chill => "Chill"@,
        PlaylistPreset::Discovery => "Discovery"@,
    }
}

fn preset_label_str(p: PlaylistPreset) -> (r: &'static str)
    ensures
        r@ == preset_label(p),
{
    match p {
        PlaylistPreset::General => "General",
        PlaylistPreset::Focus => "Focus",
        PlaylistPreset::Party => "Party",
        PlaylistPreset::Workout => "Workout",
        PlaylistPreset::Chill => "Chill",
        PlaylistPreset::Discovery => "Discovery",
    }
}

/// The error when the brief and the resolved policy name different presets.
pub fn preset_issues(brief_preset: PlaylistPreset, policy_preset: PlaylistPreset) -> (r: Vec<AuditIssue>)
    ensures
        brief_preset == policy_preset ==> r@.len() == 0,
        brief_preset != policy_preset ==> issues_view(r@) == seq![
            error_view(
                "preset_mismatch"@,
                "brief preset "@ + preset_label(brief_preset) + " does not match resolved policy preset "@
                    + preset_label(policy_preset),
            ),
        ],
{
    let mut out: Vec<AuditIssue> = Vec::new();
    if brief_preset != policy_preset {
        let msg = concat(
            &concat(
                &concat(&chars_of("brief preset "), &chars_of(preset_label_str(brief_preset))),
                &chars_of(" does not match resolved policy preset "),
            ),
            &chars_of(preset_label_str(policy_preset)),
        );
        out.push(error_issue("preset_mismatch", &msg));
        assert(issues_view(out@) =~= seq![issue_view(out@[0])]);
    }
    out
}

/// The seed checks of a finished list, over the first `n` seeds, as (issues,
/// positions of the reference seeds): repeated and unknown seeds; a pinned
/// seed absent from the list; a reference-only seed present in it.
pub open spec fn seed_review_of(
    seed_ids: Seq<Seq<char>>,
    known: Seq<Seq<char>>,
    output: Seq<Seq<char>>,
    role: SeedRole,
    n: int,
) -> (Seq<(AuditSeverity, Seq<char>, Seq<char>, Seq<usize>)>, Seq<int>)
    decreases n,
{
    if n <= 0 {
        (Seq::empty(), Seq::empty())
    } else {
        let (iss, refs) = seed_review_of(seed_ids, known, output, role, n - 1);
        let id = seed_ids[n - 1];
        if seed_ids.take(n - 1).contains(id) {
            (iss.push(error_view("duplicate_seed"@, "seed "@ + id + " occurs more than once"@)), refs)
        } else {
            match index_in(known, id) {
                None => (iss.push(error_view("missing_seed"@, "seed "@ + id + " is not in the graph"@)), refs),
                Some(t) => {
                    let iss2 = if role != SeedRole::Reference && !output.contains(id) {
                        iss.push(error_view("pinned_seed_missing"@, "pinned seed "@ + id + " is absent from the playlist"@))
                    } else if role == SeedRole::Reference && output.contains(id) {
                        iss.push(error_view("reference_seed_exported"@, "reference-only seed "@ + id + " was exported"@))
                    } else {
                        iss
                    };
                    (iss2, if is_reference_role(role) {
                        refs.push(t)
                    } else {
                        refs
                    })
                },
            }
        }
    }
}

/// What the seed checks of a finished list found.
pub struct SeedReview {
    pub issues: Vec<AuditIssue>,
    /// Positions (among the known tracks) of the reference seeds.
    pub references: Vec<usize>,
}

/// Check the seeds of a brief against the finished list (see
/// [`seed_review_of`]).
pub fn review_seeds(
    seed_ids: &Vec<String>,
    known_ids: &Vec<String>,
    output_ids: &Vec<String>,
    role: SeedRole,
) -> (r: SeedReview)
    ensures
        (issues_view(r.issues@), ints_of(r.references@)) == seed_review_of(
            seed_ids.deep_view(),
            known_ids.deep_view(),
            output_ids.deep_view(),
            role,
            seed_ids.len() as int,
        ),
{
    let ghost sv = seed_ids.deep_view();
    let ghost known = known_ids.deep_view();
    let ghost out_ids = output_ids.deep_view();
    let mut seen: Vec<String> = Vec::new();
    let mut issues: Vec<AuditIssue> = Vec::new();
    let mut references: Vec<usize> = Vec::new();
    assert(issues_view(issues@) =~= Seq::<(AuditSeverity, Seq<char>, Seq<char>, Seq<usize>)>::empty());
    assert(ints_of(references@) =~= Seq::<int>::empty());
    let mut i: usize = 0;
    while i < seed_ids.len()
        invariant
            i <= seed_ids.len(),
            sv == seed_ids.deep_view(),
            known == known_ids.deep_view(),
            out_ids == output_ids.deep_view(),
            seen.deep_view() == sv.take(i as int),
            (issues_view(issues@), ints_of(references@)) == seed_review_of(sv, known, out_ids, role, i as int),
        decreases seed_ids.len() - i,
    {
        let id = chars_of(seed_ids[i].as_str());
        assert(sv[i as int] == id@);
        let dup = contains_chars(&seen, &id);
        let ghost s0 = seen.deep_view();
        seen.push(string_of(&id));
        assert(seen.deep_view() =~= s0.push(id@));
        assert(sv.take(i as int + 1) =~= sv.take(i as int).push(sv[i as int]));
        let ghost i0 = issues_view(issues@);
        let ghost r0 = ints_of(references@);
        if dup {
            let msg = concat(&concat(&chars_of("seed "), &id), &chars_of(" occurs more than once"));
            issues.push(error_issue("duplicate_seed", &msg));
            assert(issues_view(issues@) =~= i0.push(error_view("duplicate_seed"@, msg@)));
        } else {
            let found = position_of(known_ids, seed_ids[i].as_str());
            proof {
                lemma_last_index(known, id@, known.len() as int);
                assert(known.len() == known_ids.len());
            }
            match found {
                None => {
                    let msg = concat(&concat(&chars_of("seed "), &id), &chars_of(" is not in the graph"));
                    issues.push(error_issue("missing_seed", &msg));
                    assert(issues_view(issues@) =~= i0.push(error_view("missing_seed"@, msg@)));
                },
                Some(t) => {
                    let present = contains_chars(output_ids, &id);
                    if role != SeedRole::Reference && !present {
                        let msg = concat(
                            &concat(&chars_of("pinned seed "), &id),
                            &chars_of(" is absent from the playlist"),
                        );
                        issues.push(error_issue("pinned_seed_missing", &msg));
                        assert(issues_view(issues@) =~= i0.push(error_view("pinned_seed_missing"@, msg@)));
                    } else if role == SeedRole::Reference && present {
                        let msg = concat(&concat(&chars_of("reference-only seed "), &id), &chars_of(" was exported"));
                        issues.push(error_issue("reference_seed_exported", &msg));
                        assert(issues_view(issues@) =~= i0.push(error_view("reference_seed_exported"@, msg@)));
                    }
                    if role == SeedRole::Reference || role == SeedRole::PinnedAndReference {
                        references.push(t);
                        assert(ints_of(references@) =~= r0.push(t as int));
                    }
                },
            }
        }
        i += 1;
    }
    SeedReview { issues, references }
}

/// The positions (1-based) of the listed tracks that relative targets are
/// checked on, with their positions among the known tracks: every known
/// track of the list that is not one of the seeds.
pub open spec fn checked_positions_of(
    ids: Seq<Seq<char>>,
    known: Seq<Seq<char>>,
    seed_ids: Seq<Seq<char>>,
    n: int,
) -> Seq<(int, int)>
    decreases n,
{
    if n <= 0 {
        Seq::empty()
    } else {
        let p = checked_positions_of(ids, known, seed_ids, n - 1);
        let id = ids[n - 1];
        if seed_ids.contains(id) {
            p
        } else {
            match index_in(known, id) {
                Some(t) => p.push((n, t)),
                None => p,
            }
        }
    }
}

/// The positions the seed-relative targets are checked on (see
/// [`checked_positions_of`]).
pub fn checked_positions(track_ids: &Vec<String>, known_ids: &Vec<String>, seed_ids: &Vec<String>) -> (r: Vec<
    (usize, usize),
>)
    requires
        track_ids.len() < usize::MAX,
    ensures
        r@.map_values(|p: (usize, usize)| (p.0 as int, p.1 as int)) == checked_positions_of(
            track_ids.deep_view(),
            known_ids.deep_view(),
            seed_ids.deep_view(),
            track_ids.len() as int,
        ),
{
    let ghost ids = track_ids.deep_view();
    let mut out: Vec<(usize, usize)> = Vec::new();
    let mut i: usize = 0;
    while i < track_ids.len()
        invariant
            i <= track_ids.len(),
            track_ids.len() < usize::MAX,
            ids == track_ids.deep_view(),
            out@.map_values(|p: (usize, usize)| (p.0 as int, p.1 as int)) == checked_positions_of(
                ids,
                known_ids.deep_view(),
                seed_ids.deep_view(),
                i as int,
            ),
        decreases track_ids.len() - i,
    {
        let id = chars_of(track_ids[i].as_str());
        assert(ids[i as int] == id@);
        proof {
            lemma_last_index(known_ids.deep_view(), id@, known_ids.len() as int);
        }
        if !contains_chars(seed_ids, &id) {
            match position_of(known_ids, track_ids[i].as_str()) {
                Some(t) => {
                    let ghost o0 = out@.map_values(|p: (usize, usize)| (p.0 as int, p.1 as int));
                    out.push((i + 1, t));
                    assert(out@.map_values(|p: (usize, usize)| (p.0 as int, p.1 as int)) =~= o0.push(
                        (i as int + 1, t as int),
                    ));
                },
                None => {},
            }
        }
        i += 1;
    }
    out
}

/// The error when seed-relative targets are set but no seed is a reference.
pub fn reference_issues(directives_active: bool, reference_count: usize) -> (r: Vec<AuditIssue>)
    ensures
        directives_active && reference_count == 0 ==> issues_view(r@) == seq![
            error_view(
                "seed_target_without_reference"@,
                "seed-relative targets require seed_role reference or pinned_and_reference"@,
            ),
        ],
        !(directives_active && reference_count == 0) ==> r@.len() == 0,
{
    let mut out: Vec<AuditIssue> = Vec::new();
    if directives_active && reference_count == 0 {
        out.push(
            error_issue(
                "seed_target_without_reference",
                &chars_of("seed-relative targets require seed_role reference or pinned_and_reference"),
            ),
        );
        assert(issues_view(out@) =~= seq![issue_view(out@[0])]);
    }
    out
}

/// The summary of an audit: a headline, then one line per issue.
pub open spec fn summary_of(track_count: nat, unique_artists: nat, passed: bool, issues: Seq<AuditIssue>) -> Seq<
    Seq<char>,
> {
    seq![
        decimal(track_count) + " tracks, "@ + decimal(unique_artists) + " artists, audit "@ + if passed {
            "passed"@
        } else {
            "failed"@
        },
    ] + Seq::new(issues.len(), |i: int| issues[i].code@ + ": "@ + issues[i].message@)
}

/// The summary lines of an audit (see [`summary_of`]).
pub fn summary_lines(track_count: usize, unique_artists: usize, passed: bool, issues: &Vec<AuditIssue>) -> (r: Vec<
    String,
>)
    ensures
        r.deep_view() == summary_of(track_count as nat, unique_artists as nat, passed, issues@),
{
    let ghost want = summary_of(track_count as nat, unique_artists as nat, passed, issues@);
    let verdict = if passed {
        chars_of("passed")
    } else {
        chars_of("failed")
    };
    let head = concat(
        &concat(
            &concat(&concat(&decimal_chars(track_count as u64), &chars_of(" tracks, ")), &decimal_chars(unique_artists as u64)),
            &chars_of(" artists, audit "),
        ),
        &verdict,
    );
    let mut out: Vec<String> = Vec::new();
    out.push(string_of(&head));
    assert(out.deep_view() =~= want.take(1));
    let mut i: usize = 0;
    while i < issues.len()
        invariant
            i <= issues.len(),
            want == summary_of(track_count as nat, unique_artists as nat, passed, issues@),
            out.deep_view() == want.take(i as int + 1),
        decreases issues.len() - i,
    {
        let line = concat(
            &concat(&chars_of(issues[i].code.as_str()), &chars_of(": ")),
            &chars_of(issues[i].message.as_str()),
        );
        let ghost o0 = out.deep_view();
        out.push(string_of(&line));
        assert(want[i as int + 1] == issues@[i as int].code@ + ": "@ + issues@[i as int].message@);
        assert(out.deep_view() =~= o0.push(want[i as int + 1]));
        assert(want.take(i as int + 2) =~= want.take(i as int + 1).push(want[i as int + 1]));
        i += 1;
    }
    assert(want.take(issues.len() as int + 1) =~= want);
    out
}


// ───────────────────────────── the whole audit ─────────────────────────────

/// Every known track a track-list check selected is one of the known tracks.
proof fn lemma_selected_known(
    ids: Seq<Seq<char>>,
    known: Seq<Seq<char>>,
    elig: Seq<Seq<(Seq<char>, Seq<char>)>>,
    n: int,
)
    requires
        0 <= n <= ids.len(),
    ensures
        forall|i: int| 0 <= i < track_list_of(ids, known, elig, n).1.len()
            ==> 0 <= #[trigger] track_list_of(ids, known, elig, n).1[i] < known.len(),
        track_list_of(ids, known, elig, n).1.len() <= n,
    decreases n,
{
    if n > 0 {
        lemma_selected_known(ids, known, elig, n - 1);
        lemma_last_index(known, ids[n - 1], known.len() as int);
    }
}

/// The keys of the selected known tracks, in list order.
pub open spec fn picked_keys(keys: Seq<Seq<char>>, sel: Seq<int>) -> Seq<Seq<char>> {
    Seq::new(sel.len(), |i: int| keys[sel[i]])
}

/// No issue among them is an error.
pub open spec fn no_error(issues: Seq<AuditIssue>) -> bool {
    forall|i: int| 0 <= i < issues.len() ==> (#[trigger] issues[i]).severity != AuditSeverity::Error
}

fn picked(keys: &Vec<String>, sel: &Vec<usize>) -> (r: Vec<String>)
    requires
        forall|i: int| 0 <= i < sel.len() ==> #[trigger] sel@[i] < keys.len(),
    ensures
        r.deep_view() == picked_keys(keys.deep_view(), ints_of(sel@)),
{
    let mut out: Vec<String> = Vec::new();
    let mut i: usize = 0;
    while i < sel.len()
        invariant
            i <= sel.len(),
            forall|t: int| 0 <= t < sel.len() ==> #[trigger] sel@[t] < keys.len(),
            out.deep_view() == picked_keys(keys.deep_view(), ints_of(sel@)).take(i as int),
        decreases sel.len() - i,
    {
        let k = keys[sel[i]].clone();
        assert(ints_of(sel@)[i as int] == sel@[i as int] as int);
        assert(k@ == keys.deep_view()[sel@[i as int] as int]);
        let ghost o0 = out.deep_view();
        let ghost kv = k@;
        out.push(k);
        assert(out.deep_view() =~= o0.push(kv));
        assert(out.deep_view() =~= picked_keys(keys.deep_view(), ints_of(sel@)).take(i as int + 1));
        i += 1;
    }
    assert(picked_keys(keys.deep_view(), ints_of(sel@)).take(sel.len() as int) =~= picked_keys(
        keys.deep_view(),
        ints_of(sel@),
    ));
    out
}

/// Append `items` to `out`, in order.
fn append_issues(out: &mut Vec<AuditIssue>, items: Vec<AuditIssue>)
    ensures
        final(out)@ == old(out)@ + items@,
        issues_view(final(out)@) == issues_view(old(out)@) + issues_view(items@),
{
    let mut items = items;
    let ghost a = out@;
    let ghost b = items@;
    out.append(&mut items);
    assert(issues_view(a + b) =~= issues_view(a) + issues_view(b));
}

/// What the audit of a track list found.
pub struct PlaylistAuditIssues {
    /// Every issue, in report order.
    pub issues: Vec<AuditIssue>,
    /// No issue is an error.
    pub passed: bool,
    /// Positions (among the known tracks) of the listed tracks found.
    pub selected: Vec<usize>,
    /// How many ids repeat an earlier one.
    pub duplicate_ids: usize,
    /// Distinct non-empty artist keys of the selected tracks, ascending.
    pub artists: Vec<String>,
    /// Distinct non-empty album keys of the selected tracks, ascending.
    pub albums: Vec<String>,
    /// Distinct song keys of the selected tracks, ascending.
    pub songs: Vec<String>,
}

/// The audit of a track list against the known tracks: the track-list
/// checks (repeated and unknown ids, eligibility per position, see
/// [`track_list_of`]), then the artist caps, the album caps, the artist
/// gaps (when a gap is set), the `share_issues` (the caller's checks of the
/// artist ratio and of the artist and album shares), the song repeats, and
/// last the `measured` issues (the caller's transition and arc checks). The
/// keys of a known track stand at its position in `artist_keys`,
/// `album_keys` and `song_keys`; the audit passes when no issue is an error.
pub fn playlist_audit_issues(
    track_ids: &Vec<String>,
    known_ids: &Vec<String>,
    eligibility: &Vec<Vec<(String, String)>>,
    artist_keys: &Vec<String>,
    album_keys: &Vec<String>,
    song_keys: &Vec<String>,
    policy: DiversityPolicy,
    share_issues: Vec<AuditIssue>,
    measured: Vec<AuditIssue>,
) -> (r: PlaylistAuditIssues)
    requires
        eligibility.len() == known_ids.len(),
        artist_keys.len() == known_ids.len(),
        album_keys.len() == known_ids.len(),
        song_keys.len() == known_ids.len(),
        track_ids.len() < usize::MAX,
    ensures
        ({
            let tl = track_list_of(
                track_ids.deep_view(),
                known_ids.deep_view(),
                issue_lists_view(eligibility@),
                track_ids.len() as int,
            );
            let ak = picked_keys(artist_keys.deep_view(), tl.1);
            let bk = picked_keys(album_keys.deep_view(), tl.1);
            let sk = picked_keys(song_keys.deep_view(), tl.1);
            &&& ints_of(r.selected@) == tl.1
            &&& r.duplicate_ids == tl.2
            &&& is_distinct_keys(r.artists.deep_view(), ak, true)
            &&& is_distinct_keys(r.albums.deep_view(), bk, true)
            &&& is_distinct_keys(r.songs.deep_view(), sk, false)
            &&& issues_view(r.issues@) == tl.0 + cap_issues_of(
                r.artists.deep_view(),
                ak,
                policy.max_per_artist as nat,
                "artist_cap"@,
                Some("artist"@),
            ) + cap_issues_of(r.albums.deep_view(), bk, policy.max_per_album as nat, "album_cap"@, Some("album"@))
                + (if policy.min_artist_gap > 0 {
                gap_issues_of(r.artists.deep_view(), ak, policy.min_artist_gap as nat)
            } else {
                Seq::empty()
            }) + issues_view(share_issues@) + cap_issues_of(
                r.songs.deep_view(),
                sk,
                policy.max_per_song as nat,
                "song_repetition"@,
                None,
            ) + issues_view(measured@)
            &&& r.passed == no_error(r.issues@)
        }),
{
    let check = check_track_list(track_ids, known_ids, eligibility);
    proof {
        lemma_selected_known(
            track_ids.deep_view(),
            known_ids.deep_view(),
            issue_lists_view(eligibility@),
            track_ids.len() as int,
        );
        assert forall|i: int| 0 <= i < check.selected.len() implies #[trigger] check.selected@[i] < known_ids.len() by {
            assert(ints_of(check.selected@)[i] == check.selected@[i] as int);
        }
    }
    let ak = picked(artist_keys, &check.selected);
    let bk = picked(album_keys, &check.selected);
    let sk = picked(song_keys, &check.selected);
    let d = diversity_audit(&ak, &bk, &sk, policy);
    proof {
        reveal_strlit("artist_cap");
        reveal_strlit("artist");
        reveal_strlit("album_cap");
        reveal_strlit("album");
        reveal_strlit("song_repetition");
        assert("artist_cap"@ =~= seq!['a', 'r', 't', 'i', 's', 't', '_', 'c', 'a', 'p']);
        assert("artist"@ =~= seq!['a', 'r', 't', 'i', 's', 't']);
        assert("album_cap"@ =~= seq!['a', 'l', 'b', 'u', 'm', '_', 'c', 'a', 'p']);
        assert("album"@ =~= seq!['a', 'l', 'b', 'u', 'm']);
        assert("song_repetition"@ =~= seq!['s', 'o', 'n', 'g', '_', 'r', 'e', 'p', 'e', 't', 'i', 't', 'i', 'o', 'n']);
    }
    let DiversityAudit { artists, albums, songs, artist_caps, album_caps, artist_gaps, song_repeats } = d;
    let mut issues = check.issues;
    append_issues(&mut issues, artist_caps);
    append_issues(&mut issues, album_caps);
    let ghost before_gaps = issues_view(issues@);
    append_issues(&mut issues, artist_gaps);
    proof {
        if policy.min_artist_gap == 0 {
            assert(issues_view(issues@) =~= before_gaps + Seq::empty());
        }
    }
    append_issues(&mut issues, share_issues);
    append_issues(&mut issues, song_repeats);
    append_issues(&mut issues, measured);
    let passed = audit_passed(&issues);
    PlaylistAuditIssues {
        issues,
        passed,
        selected: check.selected,
        duplicate_ids: check.duplicate_ids,
        artists,
        albums,
        songs,
    }
}

/// The error, if any, when the brief and the resolved policy name
/// different presets.
pub open spec fn preset_issues_of(brief_preset: PlaylistPreset, policy_preset: PlaylistPreset) -> Seq<
    (AuditSeverity, Seq<char>, Seq<char>, Seq<usize>),
> {
    if brief_preset == policy_preset {
        Seq::empty()
    } else {
        seq![
            error_view(
                "preset_mismatch"@,
                "brief preset "@ + preset_label(brief_preset) + " does not match resolved policy preset "@
                    + preset_label(policy_preset),
            ),
        ]
    }
}

/// The seed-relative checks: an error when the targets are set but no seed
/// is a reference; the caller's `constraints` when some seed is.
pub open spec fn seed_target_issues_of(
    directives_active: bool,
    reference_count: nat,
    constraints: Seq<(AuditSeverity, Seq<char>, Seq<char>, Seq<usize>)>,
) -> Seq<(AuditSeverity, Seq<char>, Seq<char>, Seq<usize>)> {
    if directives_active && reference_count == 0 {
        seq![
            error_view(
                "seed_target_without_reference"@,
                "seed-relative targets require seed_role reference or pinned_and_reference"@,
            ),
        ]
    } else if reference_count > 0 {
        constraints
    } else {
        Seq::empty()
    }
}

/// The audit of a track list for a brief: the `base` audit, then the
/// unsupported intents, the track count against the target, the caller's
/// `duration_issues`, the preset check, the seed checks (see
/// [`seed_review_of`]), the caller's `range_issues` (its checks of the
/// policy's similarity minimum and margins), and the seed-relative checks
/// (see [`seed_target_issues_of`]; `constraints` are the caller's checks of
/// the listed tracks against the reference seeds). It passes when no issue is
/// an error.
pub fn brief_audit_issues(
    base: Vec<AuditIssue>,
    unsupported: &Vec<String>,
    target_tracks: usize,
    track_ids: &Vec<String>,
    duration_issues: Vec<AuditIssue>,
    brief_preset: PlaylistPreset,
    policy_preset: PlaylistPreset,
    seed_ids: &Vec<String>,
    known_ids: &Vec<String>,
    role: SeedRole,
    range_issues: Vec<AuditIssue>,
    directives_active: bool,
    constraints: Vec<AuditIssue>,
) -> (r: (Vec<AuditIssue>, bool))
    ensures
        ({
            let sr = seed_review_of(
                seed_ids.deep_view(),
                known_ids.deep_view(),
                track_ids.deep_view(),
                role,
                seed_ids.len() as int,
            );
            &&& issues_view(r.0@) == issues_view(base@) + intent_issues_of(unsupported.deep_view())
                + count_issues_of(target_tracks as nat, track_ids.len() as nat) + issues_view(duration_issues@)
                + preset_issues_of(brief_preset, policy_preset) + sr.0 + issues_view(range_issues@)
                + seed_target_issues_of(directives_active, sr.1.len(), issues_view(constraints@))
            &&& r.1 == no_error(r.0@)
        }),
{
    let mut issues = base;
    append_issues(&mut issues, intent_issues(unsupported));
    append_issues(&mut issues, count_issues(target_tracks, track_ids.len()));
    append_issues(&mut issues, duration_issues);
    let pi = preset_issues(brief_preset, policy_preset);
    assert(issues_view(pi@) =~= preset_issues_of(brief_preset, policy_preset));
    append_issues(&mut issues, pi);
    let review = review_seeds(seed_ids, known_ids, track_ids, role);
    let n_refs = review.references.len();
    assert(ints_of(review.references@).len() == n_refs);
    append_issues(&mut issues, review.issues);
    append_issues(&mut issues, range_issues);
    let ri = reference_issues(directives_active, n_refs);
    let ghost before = issues_view(issues@);
    let ghost cv = issues_view(constraints@);
    append_issues(&mut issues, ri);
    if n_refs > 0 {
        append_issues(&mut issues, constraints);
    }
    assert(issues_view(issues@) =~= before + seed_target_issues_of(directives_active, n_refs as nat, cv));
    let passed = audit_passed(&issues);
    (issues, passed)
}

} // verus!
