//! Command-line arguments of the commands that read flags: what each
//! command is asked to do, or the message it refuses them with.

use vstd::prelude::*;

use crate::cli::{
    bad_format_detail, comma_pieces, flag_needs_value_detail, flag_value, ids_of, parse_format_value,
    parse_ids, parse_preset, preset_named, unknown_preset_detail,
};
use crate::curation::{PlaylistBrief, PlaylistPreset, SeedRole};
use crate::derive::{ascii_digits, digits_value, unsigned_part};
use crate::error::SonagramError;
use crate::graph::pairs_view;
use crate::text::{chars_eq, chars_of, concat, is_digit, starts_with, string_of};

verus! {

/// An optional string as plain values.
pub open spec fn opt_view(o: Option<String>) -> Option<Seq<char>> {
    match o {
        Some(s) => Some(s@),
        None => None,
    }
}

/// Whether `a` is the word `w`.
fn same(a: &str, w: &str) -> (r: bool)
    ensures
        r == (a@ == w@),
{
    chars_eq(&chars_of(a), &chars_of(w))
}

/// Whether `a` starts with `--`.
fn is_flag(a: &str) -> (r: bool)
    ensures
        r == "--"@.is_prefix_of(a@),
{
    starts_with(&chars_of(a), &chars_of("--"))
}

/// A refusal of `playlist`-family arguments.
fn refuse(msg: &[char]) -> (r: SonagramError)
    ensures
        r is Playlist,
        r.detail() == msg@,
{
    SonagramError::Playlist(string_of(msg))
}

// ───────────────────────────── status ─────────────────────────────

/// The arguments of `status` from position `i` on, given the root and the
/// format chosen so far: `--format json|human`, `--json`, and at most one
/// positional root.
pub open spec fn status_scan(args: Seq<Seq<char>>, i: int, root: Option<Seq<char>>, json: bool) -> Result<
    (Option<Seq<char>>, bool),
    Seq<char>,
>
    decreases args.len() - i,
{
    if i >= args.len() || i < 0 {
        Ok((root, json))
    } else {
        let a = args[i];
        if a == "--format"@ {
            if i + 1 >= args.len() {
                Err("status: --format requires a value ('json' or 'human')"@)
            } else if args[i + 1] == "json"@ {
                status_scan(args, i + 2, root, true)
            } else if args[i + 1] == "human"@ {
                status_scan(args, i + 2, root, false)
            } else {
                Err("status: --format expects 'json' or 'human', got '"@ + args[i + 1] + "'"@)
            }
        } else if a == "--json"@ {
            status_scan(args, i + 1, root, true)
        } else if "--"@.is_prefix_of(a) {
            Err("status: unexpected argument '"@ + a + "'"@)
        } else if root is Some {
            Err("status: unexpected extra argument '"@ + a + "'"@)
        } else {
            status_scan(args, i + 1, Some(a), json)
        }
    }
}

/// What `status` was asked for.
pub struct StatusArgs {
    /// The library root, when given; else every configured source.
    pub root: Option<String>,
    pub as_json: bool,
}

/// Read the arguments of `status` (see [`status_scan`]); an error is the
/// message to print.
pub fn parse_status_args(args: &Vec<String>) -> (r: Result<StatusArgs, String>)
    ensures
        match status_scan(args.deep_view(), 0, None, false) {
            Ok((root, json)) => r is Ok && opt_view(r->Ok_0.root) == root && r->Ok_0.as_json == json,
            Err(m) => r is Err && r->Err_0@ == m,
        },
{
    let ghost av = args.deep_view();
    let mut root: Option<String> = None;
    let mut as_json = false;
    let mut i: usize = 0;
    while i < args.len()
        invariant
            i <= args.len(),
            av == args.deep_view(),
            status_scan(av, 0, None, false) == status_scan(av, i as int, opt_view(root), as_json),
        decreases args.len() - i,
    {
        let a = args[i].as_str();
        assert(av[i as int] == a@);
        if same(a, "--format") {
            if i + 1 >= args.len() {
                return Err(string_of(&chars_of("status: --format requires a value ('json' or 'human')")));
            }
            let v = args[i + 1].as_str();
            assert(av[i as int + 1] == v@);
            if same(v, "json") {
                as_json = true;
            } else if same(v, "human") {
                as_json = false;
            } else {
                let msg = concat(
                    &concat(&chars_of("status: --format expects 'json' or 'human', got '"), &chars_of(v)),
                    &chars_of("'"),
                );
                return Err(string_of(&msg));
            }
            i += 2;
        } else if same(a, "--json") {
            as_json = true;
            i += 1;
        } else if is_flag(a) {
            let msg = concat(&concat(&chars_of("status: unexpected argument '"), &chars_of(a)), &chars_of("'"));
            return Err(string_of(&msg));
        } else if root.is_some() {
            let msg = concat(
                &concat(&chars_of("status: unexpected extra argument '"), &chars_of(a)),
                &chars_of("'"),
            );
            return Err(string_of(&msg));
        } else {
            root = Some(string_of(&chars_of(a)));
            i += 1;
        }
    }
    Ok(StatusArgs { root, as_json })
}

// ───────────────────────────── playlist ─────────────────────────────

/// The number of leading arguments from `i` on that are not `--` flags.
pub open spec fn leading_positionals(args: Seq<Seq<char>>, i: int) -> nat
    decreases args.len() - i,
{
    if i >= args.len() || i < 0 || "--"@.is_prefix_of(args[i]) {
        0
    } else {
        1 + leading_positionals(args, i + 1)
    }
}

/// The flags of `playlist` that take a value.
pub open spec fn is_playlist_flag(a: Seq<char>) -> bool {
    a == "--cypher"@ || a == "--ids"@ || a == "--out"@ || a == "--copy-to"@ || a == "--name"@
        || a == "--description"@
}

/// The flags of `playlist` from position `i` on, as (flag, value) pairs in
/// order, or the message of the first bad one.
pub open spec fn playlist_flags(args: Seq<Seq<char>>, i: int) -> Result<Seq<(Seq<char>, Seq<char>)>, Seq<char>>
    decreases args.len() - i,
{
    if i >= args.len() || i < 0 {
        Ok(Seq::empty())
    } else if is_playlist_flag(args[i]) {
        if i + 1 < args.len() {
            match playlist_flags(args, i + 2) {
                Ok(rest) => Ok(seq![(args[i], args[i + 1])] + rest),
                Err(m) => Err(m),
            }
        } else {
            Err(flag_needs_value_detail(args[i]))
        }
    } else {
        Err("unexpected argument '"@ + args[i] + "' to `playlist`"@)
    }
}

/// The value the last of `pairs` naming `flag` gives it.
pub open spec fn last_value(pairs: Seq<(Seq<char>, Seq<char>)>, flag: Seq<char>) -> Option<Seq<char>>
    decreases pairs.len(),
{
    if pairs.len() == 0 {
        None
    } else if pairs.last().0 == flag {
        Some(pairs.last().1)
    } else {
        last_value(pairs.drop_last(), flag)
    }
}

/// What `playlist` was asked for.
pub struct PlaylistArgs {
    pub root: Option<String>,
    pub graph: Option<String>,
    pub cypher: Option<String>,
    pub ids: Option<String>,
    pub out: Option<String>,
    pub copy_to: Option<String>,
    pub name: Option<String>,
    pub description: Option<String>,
}

/// The arguments ask for help.
pub open spec fn asks_help(args: Seq<Seq<char>>) -> bool {
    args.contains("--help"@) || args.contains("-h"@)
}

/// The outcome of the arguments of `playlist` (when they do not ask for
/// help): two leading positionals (root and graph) or none; then the
/// flags; exactly one of `--cypher` and `--ids`; and a destination.
pub open spec fn playlist_args_ok(args: Seq<Seq<char>>, r: PlaylistArgs) -> bool {
    let n = leading_positionals(args, 0);
    &&& n == 0 || n == 2
    &&& playlist_flags(args, n as int) is Ok
    &&& {
        let ps = playlist_flags(args, n as int)->Ok_0;
        &&& opt_view(r.root) == (if n == 2 {
            Some(args[0])
        } else {
            None
        })
        &&& opt_view(r.graph) == (if n == 2 {
            Some(args[1])
        } else {
            None
        })
        &&& opt_view(r.cypher) == last_value(ps, "--cypher"@)
        &&& opt_view(r.ids) == last_value(ps, "--ids"@)
        &&& opt_view(r.out) == last_value(ps, "--out"@)
        &&& opt_view(r.copy_to) == last_value(ps, "--copy-to"@)
        &&& opt_view(r.name) == last_value(ps, "--name"@)
        &&& opt_view(r.description) == last_value(ps, "--description"@)
        &&& (r.cypher is Some) != (r.ids is Some)
        &&& r.name is Some || r.out is Some || r.copy_to is Some
    }
}

/// The message the arguments of `playlist` are refused with, if any.
pub open spec fn playlist_refusal(args: Seq<Seq<char>>) -> Option<Seq<char>> {
    let n = leading_positionals(args, 0);
    if n != 0 && n != 2 {
        Some("playlist: pass `<library_root> <graph.kgl>` (explicit) or neither (config-driven)"@)
    } else {
        match playlist_flags(args, n as int) {
            Err(m) => Some(m),
            Ok(ps) => if (last_value(ps, "--cypher"@) is Some) == (last_value(ps, "--ids"@) is Some) {
                Some("playlist: pass exactly one of --cypher '<query>' or --ids <hashes>"@)
            } else if last_value(ps, "--name"@) is None && last_value(ps, "--out"@) is None && last_value(
                ps,
                "--copy-to"@,
            ) is None {
                Some("playlist: pass --name <name>, --out <file.m3u8>, and/or --copy-to <dir>"@)
            } else {
                None
            },
        }
    }
}

/// Whether some argument asks for help.
fn help_requested(args: &Vec<String>) -> (r: bool)
    ensures
        r == asks_help(args.deep_view()),
{
    let ghost av = args.deep_view();
    let mut i: usize = 0;
    while i < args.len()
        invariant
            i <= args.len(),
            av == args.deep_view(),
            forall|k: int| 0 <= k < i ==> av[k] != "--help"@ && av[k] != "-h"@,
        decreases args.len() - i,
    {
        if same(args[i].as_str(), "--help") || same(args[i].as_str(), "-h") {
            assert(av[i as int] == args@[i as int]@);
            return true;
        }
        i += 1;
    }
    false
}

/// Read the arguments of `playlist`: `Ok(None)` when they ask for help, else
/// the request (see [`playlist_args_ok`]) or the refusal (see
/// [`playlist_refusal`]).
pub fn parse_playlist_args(args: &Vec<String>) -> (r: Result<Option<PlaylistArgs>, SonagramError>)
    requires
        args.len() < usize::MAX,
    ensures
        asks_help(args.deep_view()) ==> r == Ok::<Option<PlaylistArgs>, SonagramError>(None),
        !asks_help(args.deep_view()) ==> match playlist_refusal(args.deep_view()) {
            Some(m) => r is Err && r->Err_0 is Playlist && r->Err_0.detail() == m,
            None => r is Ok && r->Ok_0 is Some && playlist_args_ok(args.deep_view(), r->Ok_0->Some_0),
        },
{
    if help_requested(args) {
        return Ok(None);
    }
    let ghost av = args.deep_view();
    let mut n: usize = 0;
    while n < args.len() && !is_flag(args[n].as_str())
        invariant
            n <= args.len(),
            av == args.deep_view(),
            leading_positionals(av, 0) == n + leading_positionals(av, n as int),
        decreases args.len() - n,
    {
        assert(av[n as int] == args@[n as int]@);
        n += 1;
    }
    if n < args.len() {
        assert(av[n as int] == args@[n as int]@);
    }
    assert(leading_positionals(av, n as int) == 0);
    let (root, graph) = if n == 2 {
        (Some(string_of(&chars_of(args[0].as_str()))), Some(string_of(&chars_of(args[1].as_str()))))
    } else if n == 0 {
        (None, None)
    } else {
        return Err(refuse(&chars_of("playlist: pass `<library_root> <graph.kgl>` (explicit) or neither (config-driven)")));
    };
    let ghost start = n as int;
    let ghost mut acc: Seq<(Seq<char>, Seq<char>)> = Seq::empty();
    let mut cypher: Option<String> = None;
    let mut ids: Option<String> = None;
    let mut out: Option<String> = None;
    let mut copy_to: Option<String> = None;
    let mut name: Option<String> = None;
    let mut description: Option<String> = None;
    let mut i: usize = n;
    while i < args.len()
        invariant
            start <= i <= args.len(),
            args.len() < usize::MAX,
            av == args.deep_view(),
            !asks_help(av),
            leading_positionals(av, 0) == start,
            start == 0 || start == 2,
            match playlist_flags(av, i as int) {
                Ok(rest) => playlist_flags(av, start) == Ok::<Seq<(Seq<char>, Seq<char>)>, Seq<char>>(acc + rest),
                Err(m) => playlist_flags(av, start) == Err::<Seq<(Seq<char>, Seq<char>)>, Seq<char>>(m),
            },
            opt_view(cypher) == last_value(acc, "--cypher"@),
            opt_view(ids) == last_value(acc, "--ids"@),
            opt_view(out) == last_value(acc, "--out"@),
            opt_view(copy_to) == last_value(acc, "--copy-to"@),
            opt_view(name) == last_value(acc, "--name"@),
            opt_view(description) == last_value(acc, "--description"@),
        decreases args.len() - i,
    {
        let a = args[i].as_str();
        assert(av[i as int] == a@);
        let known = same(a, "--cypher") || same(a, "--ids") || same(a, "--out") || same(a, "--copy-to")
            || same(a, "--name") || same(a, "--description");
        if !known {
            let msg = concat(&concat(&chars_of("unexpected argument '"), &chars_of(a)), &chars_of("' to `playlist`"));
            return Err(refuse(&msg));
        }
        let mut j = i;
        let v = match flag_value(args, &mut j, a) {
            Ok(v) => v,
            Err(e) => return Err(e),
        };
        assert(av[i as int + 1] == v@);
        let ghost pair = (a@, v@);
        proof {
            let rest2 = playlist_flags(av, i as int + 2);
            if rest2 is Ok {
                assert(acc + (seq![pair] + rest2->Ok_0) =~= acc.push(pair) + rest2->Ok_0);
            }
            let acc0 = acc;
            acc = acc.push(pair);
            assert(acc.drop_last() =~= acc0);
            reveal_strlit("--cypher");
            reveal_strlit("--ids");
            reveal_strlit("--out");
            reveal_strlit("--copy-to");
            reveal_strlit("--name");
            reveal_strlit("--description");
            assert("--cypher"@.len() == 8 && "--ids"@.len() == 5 && "--out"@.len() == 5);
            assert("--copy-to"@.len() == 9 && "--name"@.len() == 6 && "--description"@.len() == 13);
            assert("--ids"@[2] != "--out"@[2]);
        }
        if same(a, "--cypher") {
            cypher = Some(v);
        } else if same(a, "--ids") {
            ids = Some(v);
        } else if same(a, "--out") {
            out = Some(v);
        } else if same(a, "--copy-to") {
            copy_to = Some(v);
        } else if same(a, "--name") {
            name = Some(v);
        } else {
            description = Some(v);
        }
        i += 2;
    }
    proof {
        assert(acc + Seq::<(Seq<char>, Seq<char>)>::empty() =~= acc);
    }
    if cypher.is_some() == ids.is_some() {
        return Err(refuse(&chars_of("playlist: pass exactly one of --cypher '<query>' or --ids <hashes>")));
    }
    if name.is_none() && out.is_none() && copy_to.is_none() {
        return Err(refuse(&chars_of("playlist: pass --name <name>, --out <file.m3u8>, and/or --copy-to <dir>")));
    }
    Ok(Some(PlaylistArgs { root, graph, cypher, ids, out, copy_to, name, description }))
}

// ───────────────────────────── playlists ─────────────────────────────

/// The flags of `playlists update` from position `i` on, given the
/// description and the clearing chosen so far.
pub open spec fn update_scan(args: Seq<Seq<char>>, i: int, desc: Option<Seq<char>>, clear: bool) -> Result<
    (Option<Seq<char>>, bool),
    Seq<char>,
>
    decreases args.len() - i,
{
    if i >= args.len() || i < 0 {
        Ok((desc, clear))
    } else if args[i] == "--description"@ {
        if i + 1 < args.len() {
            update_scan(args, i + 2, Some(args[i + 1]), clear)
        } else {
            Err(flag_needs_value_detail(args[i]))
        }
    } else if args[i] == "--clear-description"@ {
        update_scan(args, i + 1, desc, true)
    } else {
        Err("playlists update: unexpected argument '"@ + args[i] + "'"@)
    }
}

/// What `playlists` was asked for.
pub enum PlaylistsCommand {
    List,
    Show(String),
    /// Set (`Some`) or clear (`None`) the description of a stored playlist.
    Update(String, Option<String>),
    Delete(String),
}

/// The outcome of the arguments of `playlists`: `list` (or nothing),
/// `show <slug>`, `update <slug>` with exactly one of `--description <text>`
/// and `--clear-description`, or `delete <slug>` alone.
pub open spec fn playlists_outcome(args: Seq<Seq<char>>, r: Result<PlaylistsCommand, SonagramError>) -> bool {
    if args.len() == 0 || args[0] == "list"@ {
        r == Ok::<PlaylistsCommand, SonagramError>(PlaylistsCommand::List)
    } else if args[0] == "show"@ {
        if args.len() > 1 && !"--"@.is_prefix_of(args[1]) {
            r is Ok && (r->Ok_0 matches PlaylistsCommand::Show(s) && s@ == args[1])
        } else {
            r is Err && r->Err_0 is Playlist && r->Err_0.detail() == "playlists show: missing <slug>"@
        }
    } else if args[0] == "update"@ {
        if args.len() < 2 {
            r is Err && r->Err_0 is Playlist && r->Err_0.detail() == "playlists update: missing <slug>"@
        } else {
            match update_scan(args, 2, None, false) {
                Err(m) => r is Err && r->Err_0 is Playlist && r->Err_0.detail() == m,
                Ok((desc, clear)) => if (desc is Some) == clear {
                    r is Err && r->Err_0 is Playlist && r->Err_0.detail()
                        == "playlists update: pass exactly one of --description <text> or --clear-description"@
                } else {
                    r is Ok && (r->Ok_0 matches PlaylistsCommand::Update(s, d) && s@ == args[1] && opt_view(d)
                        == desc)
                },
            }
        }
    } else if args[0] == "delete"@ {
        if args.len() < 2 {
            r is Err && r->Err_0 is Playlist && r->Err_0.detail() == "playlists delete: missing <slug>"@
        } else if args.len() != 2 {
            r is Err && r->Err_0 is Playlist && r->Err_0.detail() == "playlists delete: expected exactly one <slug>"@
        } else {
            r is Ok && (r->Ok_0 matches PlaylistsCommand::Delete(s) && s@ == args[1])
        }
    } else {
        r is Err && r->Err_0 is Playlist && r->Err_0.detail() == "playlists: unknown subcommand '"@ + args[0]
            + "' — try list|show|update|delete"@
    }
}

/// Read the arguments of `playlists` (see [`playlists_outcome`]).
pub fn parse_playlists_args(args: &Vec<String>) -> (r: Result<PlaylistsCommand, SonagramError>)
    requires
        args.len() < usize::MAX,
    ensures
        playlists_outcome(args.deep_view(), r),
{
    let ghost av = args.deep_view();
    if args.len() == 0 || same(args[0].as_str(), "list") {
        return Ok(PlaylistsCommand::List);
    }
    let sub = args[0].as_str();
    assert(av[0] == sub@);
    if same(sub, "show") {
        if args.len() > 1 && !is_flag(args[1].as_str()) {
            return Ok(PlaylistsCommand::Show(string_of(&chars_of(args[1].as_str()))));
        }
        return Err(refuse(&chars_of("playlists show: missing <slug>")));
    }
    if same(sub, "update") {
        if args.len() < 2 {
            return Err(refuse(&chars_of("playlists update: missing <slug>")));
        }
        let mut desc: Option<String> = None;
        let mut clear = false;
        let mut i: usize = 2;
        while i < args.len()
            invariant
                2 <= i <= args.len(),
                args.len() < usize::MAX,
                av == args.deep_view(),
                av[0] == "update"@,
                av[0] != "list"@,
                av[0] != "show"@,
                update_scan(av, 2, None, false) == update_scan(av, i as int, opt_view(desc), clear),
            decreases args.len() - i,
        {
            let a = args[i].as_str();
            assert(av[i as int] == a@);
            if same(a, "--description") {
                let mut j = i;
                let v = match flag_value(args, &mut j, a) {
                    Ok(v) => v,
                    Err(e) => return Err(e),
                };
                desc = Some(v);
                i += 2;
            } else if same(a, "--clear-description") {
                clear = true;
                i += 1;
            } else {
                let msg = concat(
                    &concat(&chars_of("playlists update: unexpected argument '"), &chars_of(a)),
                    &chars_of("'"),
                );
                return Err(refuse(&msg));
            }
        }
        if desc.is_some() == clear {
            return Err(
                refuse(&chars_of("playlists update: pass exactly one of --description <text> or --clear-description")),
            );
        }
        return Ok(PlaylistsCommand::Update(string_of(&chars_of(args[1].as_str())), desc));
    }
    if same(sub, "delete") {
        if args.len() < 2 {
            return Err(refuse(&chars_of("playlists delete: missing <slug>")));
        }
        if args.len() != 2 {
            return Err(refuse(&chars_of("playlists delete: expected exactly one <slug>")));
        }
        return Ok(PlaylistsCommand::Delete(string_of(&chars_of(args[1].as_str()))));
    }
    let msg = concat(
        &concat(&chars_of("playlists: unknown subcommand '"), &chars_of(sub)),
        &chars_of("' — try list|show|update|delete"),
    );
    Err(refuse(&msg))
}

// ───────────────────────────── numbers ─────────────────────────────

/// The value an unsigned integer parse gives `s` when it fits under `max`:
/// an optional `+`, then at least one ASCII digit.
pub open spec fn unsigned_value(s: Seq<char>, max: nat) -> Option<nat> {
    let d = unsigned_part(s);
    if d.len() > 0 && ascii_digits(d) && digits_value(d) <= max {
        Some(digits_value(d))
    } else {
        None
    }
}

proof fn lemma_digits_grow(d: Seq<char>, i: int)
    requires
        0 <= i <= d.len(),
        ascii_digits(d),
    ensures
        digits_value(d.take(i)) <= digits_value(d),
    decreases d.len() - i,
{
    if i < d.len() {
        lemma_digits_grow(d, i + 1);
        assert(d.take(i + 1).drop_last() =~= d.take(i));
        assert(is_digit(d[i]));
    } else {
        assert(d.take(i) =~= d);
    }
}

/// Parse an unsigned integer no larger than `max` (see [`unsigned_value`]).
pub fn parse_unsigned(s: &str, max: u64) -> (r: Option<u64>)
    ensures
        match unsigned_value(s@, max as nat) {
            Some(v) => r == Some(v as u64),
            None => r is None,
        },
{
    let c = chars_of(s);
    let start: usize = if c.len() > 0 && c[0] == '+' {
        1
    } else {
        0
    };
    let ghost d = unsigned_part(s@);
    assert(d =~= c@.subrange(start as int, c@.len() as int));
    if start >= c.len() {
        return None;
    }
    let mut v: u128 = 0;
    let mut over = false;
    let mut i: usize = start;
    while i < c.len()
        invariant
            start <= i <= c.len(),
            c@ == s@,
            d == unsigned_part(s@),
            d == c@.subrange(start as int, c@.len() as int),
            forall|k: int| 0 <= k < i - start ==> is_digit(#[trigger] d[k]),
            !over ==> v == digits_value(d.take(i - start)) && v <= max,
            over ==> digits_value(d.take(i - start)) > max,
        decreases c.len() - i,
    {
        let ch = c[i];
        assert(d[i - start] == ch);
        if !('0' <= ch && ch <= '9') {
            assert(!is_digit(d[i - start]));
            return None;
        }
        assert(d.take(i - start + 1).drop_last() =~= d.take(i - start));
        proof {
            vstd::utf8::char_u32_cast(ch, ch as u32);
        }
        let digit: u128 = (ch as u32 - 48) as u128;
        if !over {
            let nv = v * 10 + digit;
            if nv > max as u128 {
                over = true;
            } else {
                v = nv;
            }
        } else {
            assert(digits_value(d.take(i - start + 1)) >= digits_value(d.take(i - start))) by (nonlinear_arith)
                requires
                    digits_value(d.take(i - start + 1)) == digits_value(d.take(i - start)) * 10 + digit,
            ;
        }
        i += 1;
    }
    assert(d.take(d.len() as int) =~= d);
    if over {
        None
    } else {
        Some(v as u64)
    }
}

// ───────────────────────────── flags of the ordering commands ─────────────────────────────

/// The commands whose flags are read the same way.
#[derive(Debug, Clone, Copy, PartialEq, Eq, Structural)]
pub enum FlagSet {
    /// `policy`.
    Policy,
    /// `audit` and `explain`.
    Order,
    /// `curate`.
    Curate,
}

/// The flags of a command that take a value.
pub open spec fn takes_value(k: FlagSet, a: Seq<char>) -> bool {
    match k {
        FlagSet::Policy => a == "--preset"@ || a == "--format"@,
        FlagSet::Order => a == "--ids"@ || a == "--preset"@ || a == "--policy-json"@ || a == "--brief-json"@
            || a == "--format"@,
        FlagSet::Curate => a == "--preset"@ || a == "--tracks"@ || a == "--duration-sec"@ || a == "--seed-ids"@
            || a == "--brief-json"@ || a == "--policy-json"@ || a == "--name"@ || a == "--description"@
            || a == "--format"@,
    }
}

/// Why the value `v` of flag `a` is refused, if it is.
pub open spec fn value_refusal(k: FlagSet, command: Seq<char>, a: Seq<char>, v: Seq<char>) -> Option<Seq<char>> {
    if a == "--preset"@ && preset_named(v) is None {
        Some(unknown_preset_detail(v))
    } else if a == "--format"@ && v != "json"@ && v != "human"@ {
        Some(bad_format_detail(command, v))
    } else if k == FlagSet::Curate && a == "--tracks"@ && unsigned_value(v, usize::MAX as nat) is None {
        Some("curate: --tracks expects an integer, got "@ + v)
    } else if k == FlagSet::Curate && a == "--duration-sec"@ && unsigned_value(v, u64::MAX as nat) is None {
        Some("curate: --duration-sec expects an integer, got "@ + v)
    } else {
        None
    }
}

/// The flags from position `i` on, as (flag, value) pairs in order (`--json`
/// with an empty value), or the message of the first refusal.
pub open spec fn scan_flags(args: Seq<Seq<char>>, i: int, k: FlagSet, command: Seq<char>) -> Result<
    Seq<(Seq<char>, Seq<char>)>,
    Seq<char>,
>
    decreases args.len() - i,
{
    if i >= args.len() || i < 0 {
        Ok(Seq::empty())
    } else if args[i] == "--json"@ {
        match scan_flags(args, i + 1, k, command) {
            Ok(rest) => Ok(seq![("--json"@, Seq::<char>::empty())] + rest),
            Err(m) => Err(m),
        }
    } else if takes_value(k, args[i]) {
        if i + 1 < args.len() {
            match value_refusal(k, command, args[i], args[i + 1]) {
                Some(m) => Err(m),
                None => match scan_flags(args, i + 2, k, command) {
                    Ok(rest) => Ok(seq![(args[i], args[i + 1])] + rest),
                    Err(m) => Err(m),
                },
            }
        } else {
            Err(flag_needs_value_detail(args[i]))
        }
    } else {
        Err(command + ": unexpected argument '"@ + args[i] + "'"@)
    }
}

/// Whether the last output choice (`--json`, or `--format json|human`)
/// asks for JSON.
pub open spec fn json_choice(ps: Seq<(Seq<char>, Seq<char>)>) -> bool
    decreases ps.len(),
{
    if ps.len() == 0 {
        false
    } else if ps.last().0 == "--json"@ {
        true
    } else if ps.last().0 == "--format"@ {
        ps.last().1 == "json"@
    } else {
        json_choice(ps.drop_last())
    }
}

proof fn lemma_flag_words()
    ensures
        "--json"@.len() == 6,
        "--preset"@.len() == 8,
        "--format"@.len() == 8,
        "--ids"@.len() == 5,
        "--policy-json"@.len() == 13,
        "--brief-json"@.len() == 12,
        "--tracks"@.len() == 8,
        "--duration-sec"@.len() == 14,
        "--seed-ids"@.len() == 10,
        "--name"@.len() == 6,
        "--description"@.len() == 13,
        "--preset"@[2] != "--format"@[2],
        "--preset"@[2] != "--tracks"@[2],
        "--format"@[2] != "--tracks"@[2],
        "--description"@[2] != "--policy-json"@[2],
        "--json"@[2] != "--name"@[2],
        "json"@ == seq!['j', 's', 'o', 'n'],
        "human"@ == seq!['h', 'u', 'm', 'a', 'n'],
{
    reveal_strlit("--json");
    reveal_strlit("--preset");
    reveal_strlit("--format");
    reveal_strlit("--ids");
    reveal_strlit("--policy-json");
    reveal_strlit("--brief-json");
    reveal_strlit("--tracks");
    reveal_strlit("--duration-sec");
    reveal_strlit("--seed-ids");
    reveal_strlit("--name");
    reveal_strlit("--description");
    reveal_strlit("json");
    reveal_strlit("human");
}

/// Whether `a` is a value flag of `k`.
fn takes_value_exec(k: FlagSet, a: &str) -> (r: bool)
    ensures
        r == takes_value(k, a@),
{
    match k {
        FlagSet::Policy => same(a, "--preset") || same(a, "--format"),
        FlagSet::Order => same(a, "--ids") || same(a, "--preset") || same(a, "--policy-json") || same(
            a,
            "--brief-json",
        ) || same(a, "--format"),
        FlagSet::Curate => same(a, "--preset") || same(a, "--tracks") || same(a, "--duration-sec") || same(
            a,
            "--seed-ids",
        ) || same(a, "--brief-json") || same(a, "--policy-json") || same(a, "--name") || same(
            a,
            "--description",
        ) || same(a, "--format"),
    }
}

/// The refusal of the value `v` of flag `a`, if any (see [`value_refusal`]).
fn value_refusal_exec(k: FlagSet, command: &str, a: &str, v: &str) -> (r: Option<SonagramError>)
    ensures
        match value_refusal(k, command@, a@, v@) {
            Some(m) => r is Some && r->Some_0 is Playlist && r->Some_0.detail() == m,
            None => r is None,
        },
{
    proof {
        lemma_flag_words();
    }
    if same(a, "--preset") {
        if let Err(e) = parse_preset(v) {
            return Some(e);
        }
    }
    if same(a, "--format") {
        if let Err(e) = parse_format_value(command, v) {
            return Some(e);
        }
    }
    if k == FlagSet::Curate && same(a, "--tracks") && parse_unsigned(v, usize::MAX as u64).is_none() {
        return Some(refuse(&concat(&chars_of("curate: --tracks expects an integer, got "), &chars_of(v))));
    }
    if k == FlagSet::Curate && same(a, "--duration-sec") && parse_unsigned(v, u64::MAX).is_none() {
        return Some(refuse(&concat(&chars_of("curate: --duration-sec expects an integer, got "), &chars_of(v))));
    }
    None
}

/// Read the flags of a command (see [`scan_flags`]).
pub fn scan_command_flags(k: FlagSet, command: &str, args: &Vec<String>) -> (r: Result<Vec<(String, String)>, SonagramError>)
    requires
        args.len() < usize::MAX,
    ensures
        match scan_flags(args.deep_view(), 0, k, command@) {
            Ok(ps) => r is Ok && pairs_view(r->Ok_0@) == ps,
            Err(m) => r is Err && r->Err_0 is Playlist && r->Err_0.detail() == m,
        },
{
    let ghost av = args.deep_view();
    let mut out: Vec<(String, String)> = Vec::new();
    let mut i: usize = 0;
    assert(pairs_view(out@) =~= Seq::<(Seq<char>, Seq<char>)>::empty());
    while i < args.len()
        invariant
            i <= args.len(),
            args.len() < usize::MAX,
            av == args.deep_view(),
            match scan_flags(av, i as int, k, command@) {
                Ok(rest) => scan_flags(av, 0, k, command@) == Ok::<Seq<(Seq<char>, Seq<char>)>, Seq<char>>(
                    pairs_view(out@) + rest,
                ),
                Err(m) => scan_flags(av, 0, k, command@) == Err::<Seq<(Seq<char>, Seq<char>)>, Seq<char>>(m),
            },
        decreases args.len() - i,
    {
        let a = args[i].as_str();
        assert(av[i as int] == a@);
        let ghost o0 = pairs_view(out@);
        if same(a, "--json") {
            out.push((string_of(&chars_of("--json")), String::new()));
            proof {
                let rest = scan_flags(av, i as int + 1, k, command@);
                assert(pairs_view(out@) =~= o0.push(("--json"@, Seq::<char>::empty())));
                if rest is Ok {
                    assert(o0 + (seq![("--json"@, Seq::<char>::empty())] + rest->Ok_0) =~= pairs_view(out@)
                        + rest->Ok_0);
                }
            }
            i += 1;
        } else if takes_value_exec(k, a) {
            let mut j = i;
            let v = match flag_value(args, &mut j, a) {
                Ok(v) => v,
                Err(e) => return Err(e),
            };
            assert(av[i as int + 1] == v@);
            if let Some(e) = value_refusal_exec(k, command, a, v.as_str()) {
                return Err(e);
            }
            out.push((string_of(&chars_of(a)), v));
            proof {
                let rest = scan_flags(av, i as int + 2, k, command@);
                assert(pairs_view(out@) =~= o0.push((a@, av[i as int + 1])));
                if rest is Ok {
                    assert(o0 + (seq![(a@, av[i as int + 1])] + rest->Ok_0) =~= pairs_view(out@) + rest->Ok_0);
                }
            }
            i += 2;
        } else {
            let msg = concat(
                &concat(&concat(&chars_of(command), &chars_of(": unexpected argument '")), &chars_of(a)),
                &chars_of("'"),
            );
            return Err(refuse(&msg));
        }
    }
    assert(pairs_view(out@) + Seq::<(Seq<char>, Seq<char>)>::empty() =~= pairs_view(out@));
    Ok(out)
}

/// The value the last pair naming `flag` gives it.
fn last_of(pairs: &Vec<(String, String)>, flag: &str) -> (r: Option<String>)
    ensures
        opt_view(r) == last_value(pairs_view(pairs@), flag@),
{
    let ghost ps = pairs_view(pairs@);
    let mut i: usize = pairs.len();
    assert(ps.take(i as int) =~= ps);
    while i > 0
        invariant
            i <= pairs.len(),
            ps == pairs_view(pairs@),
            last_value(ps, flag@) == last_value(ps.take(i as int), flag@),
        decreases i,
    {
        assert(ps.take(i as int).drop_last() =~= ps.take(i as int - 1));
        assert(ps[i as int - 1] == (pairs@[i as int - 1].0@, pairs@[i as int - 1].1@));
        if same(pairs[i - 1].0.as_str(), flag) {
            return Some(string_of(&chars_of(pairs[i - 1].1.as_str())));
        }
        i -= 1;
    }
    None
}

/// Whether the pairs ask for JSON output (see [`json_choice`]).
fn json_chosen(pairs: &Vec<(String, String)>) -> (r: bool)
    ensures
        r == json_choice(pairs_view(pairs@)),
{
    let ghost ps = pairs_view(pairs@);
    let mut i: usize = pairs.len();
    assert(ps.take(i as int) =~= ps);
    while i > 0
        invariant
            i <= pairs.len(),
            ps == pairs_view(pairs@),
            json_choice(ps) == json_choice(ps.take(i as int)),
        decreases i,
    {
        assert(ps.take(i as int).drop_last() =~= ps.take(i as int - 1));
        assert(ps[i as int - 1] == (pairs@[i as int - 1].0@, pairs@[i as int - 1].1@));
        let f = pairs[i - 1].0.as_str();
        if same(f, "--json") {
            return true;
        }
        if same(f, "--format") {
            return same(pairs[i - 1].1.as_str(), "json");
        }
        i -= 1;
    }
    false
}

/// The preset a checked `--preset` value names.
fn named_preset(value: Option<String>) -> (r: Option<PlaylistPreset>)
    requires
        value is Some ==> preset_named(value->Some_0@) is Some,
    ensures
        r == match value {
            Some(v) => preset_named(v@),
            None => None,
        },
{
    match value {
        Some(v) => match parse_preset(v.as_str()) {
            Ok(p) => Some(p),
            Err(_) => None,
        },
        None => None,
    }
}

/// What `policy` was asked for.
pub struct PolicyArgs {
    pub preset: PlaylistPreset,
    pub as_json: bool,
}

/// Read the arguments of `policy`: `--preset <name>` (general by default)
/// and the output format.
pub fn parse_policy_args(args: &Vec<String>) -> (r: Result<PolicyArgs, SonagramError>)
    requires
        args.len() < usize::MAX,
    ensures
        match scan_flags(args.deep_view(), 0, FlagSet::Policy, "policy"@) {
            Ok(ps) => r is Ok && r->Ok_0.preset == (match last_value(ps, "--preset"@) {
                Some(v) => preset_named(v)->Some_0,
                None => PlaylistPreset::General,
            }) && r->Ok_0.as_json == json_choice(ps),
            Err(m) => r is Err && r->Err_0 is Playlist && r->Err_0.detail() == m,
        },
{
    let pairs = match scan_command_flags(FlagSet::Policy, "policy", args) {
        Ok(p) => p,
        Err(e) => return Err(e),
    };
    let ghost ps = pairs_view(pairs@);
    proof {
        lemma_scanned_values_pass(args.deep_view(), 0, FlagSet::Policy, "policy"@);
        lemma_flag_words();
    }
    let preset = match named_preset(last_of(&pairs, "--preset")) {
        Some(p) => p,
        None => PlaylistPreset::General,
    };
    Ok(PolicyArgs { preset, as_json: json_chosen(&pairs) })
}

/// Every value that the scan accepted passed its check.
proof fn lemma_scanned_values_pass(args: Seq<Seq<char>>, i: int, k: FlagSet, command: Seq<char>)
    requires
        scan_flags(args, i, k, command) is Ok,
    ensures
        ({
            let ps = scan_flags(args, i, k, command)->Ok_0;
            &&& forall|t: int| 0 <= t < ps.len() && ps[t].0 != "--json"@ ==> value_refusal(k, command, ps[t].0, ps[t].1) is None
            &&& forall|t: int| 0 <= t < ps.len() && ps[t].0 != "--json"@ ==> #[trigger] takes_value(k, ps[t].0)
        }),
        forall|f: Seq<char>| f != "--json"@ && #[trigger] last_value(scan_flags(args, i, k, command)->Ok_0, f) is Some
            ==> value_refusal(k, command, f, last_value(scan_flags(args, i, k, command)->Ok_0, f)->Some_0) is None,
    decreases args.len() - i,
{
    let ps = scan_flags(args, i, k, command)->Ok_0;
    if i >= args.len() || i < 0 {
    } else if args[i] == "--json"@ {
        lemma_scanned_values_pass(args, i + 1, k, command);
        let rest = scan_flags(args, i + 1, k, command)->Ok_0;
        assert forall|t: int| 0 <= t < ps.len() && ps[t].0 != "--json"@ implies value_refusal(k, command, ps[t].0, ps[t].1) is None && takes_value(k, ps[t].0) by {
            assert(ps[t] == rest[t - 1]);
        }
        lemma_last_value_in(ps);
    } else {
        lemma_scanned_values_pass(args, i + 2, k, command);
        let rest = scan_flags(args, i + 2, k, command)->Ok_0;
        assert forall|t: int| 0 <= t < ps.len() && ps[t].0 != "--json"@ implies value_refusal(k, command, ps[t].0, ps[t].1) is None && takes_value(k, ps[t].0) by {
            if t > 0 {
                assert(ps[t] == rest[t - 1]);
            }
        }
        lemma_last_value_in(ps);
    }
}

/// The last value of a flag is the value of one of its pairs.
proof fn lemma_last_value_in(ps: Seq<(Seq<char>, Seq<char>)>)
    ensures
        forall|f: Seq<char>| #[trigger] last_value(ps, f) is Some ==> exists|t: int| 0 <= t < ps.len() && ps[t].0 == f
            && ps[t].1 == last_value(ps, f)->Some_0,
    decreases ps.len(),
{
    if ps.len() > 0 {
        lemma_last_value_in(ps.drop_last());
        assert forall|f: Seq<char>| #[trigger] last_value(ps, f) is Some implies exists|t: int| 0 <= t < ps.len()
            && ps[t].0 == f && ps[t].1 == last_value(ps, f)->Some_0 by {
            if ps.last().0 == f {
                assert(ps[ps.len() - 1] == ps.last());
            } else {
                let t = choose|t: int| 0 <= t < ps.drop_last().len() && ps.drop_last()[t].0 == f
                    && ps.drop_last()[t].1 == last_value(ps.drop_last(), f)->Some_0;
                assert(ps[t] == ps.drop_last()[t]);
            }
        }
    }
}

/// The refusal when no ids were given.
pub open spec fn no_ids_detail(command: Seq<char>) -> Seq<char> {
    command + ": pass --ids <hash1,hash2,...>"@
}

/// What `audit` or `explain` was asked for.
pub struct OrderArgs {
    pub ids: Vec<String>,
    pub preset: Option<PlaylistPreset>,
    pub policy_json: Option<String>,
    pub brief_json: Option<String>,
    pub as_json: bool,
}

/// The preset a checked `--preset` pair gives, if any.
pub open spec fn preset_of(ps: Seq<(Seq<char>, Seq<char>)>) -> Option<PlaylistPreset> {
    match last_value(ps, "--preset"@) {
        Some(v) => preset_named(v),
        None => None,
    }
}

/// Read the arguments of `audit` or `explain`: `--ids` (required, non-empty
/// after splitting), `--preset`, `--policy-json`, `--brief-json` and the
/// output format.
pub fn parse_order_args(command: &str, args: &Vec<String>) -> (r: Result<OrderArgs, SonagramError>)
    requires
        args.len() < usize::MAX,
    ensures
        match scan_flags(args.deep_view(), 0, FlagSet::Order, command@) {
            Err(m) => r is Err && r->Err_0 is Playlist && r->Err_0.detail() == m,
            Ok(ps) => match last_value(ps, "--ids"@) {
                Some(v) if ids_of(comma_pieces(v)).len() > 0 => r is Ok && r->Ok_0.ids.deep_view() == ids_of(
                    comma_pieces(v),
                ) && r->Ok_0.preset == preset_of(ps) && opt_view(r->Ok_0.policy_json) == last_value(
                    ps,
                    "--policy-json"@,
                ) && opt_view(r->Ok_0.brief_json) == last_value(ps, "--brief-json"@) && r->Ok_0.as_json
                    == json_choice(ps),
                _ => r is Err && r->Err_0 is Playlist && r->Err_0.detail() == no_ids_detail(command@),
            },
        },
{
    let pairs = match scan_command_flags(FlagSet::Order, command, args) {
        Ok(p) => p,
        Err(e) => return Err(e),
    };
    proof {
        lemma_scanned_values_pass(args.deep_view(), 0, FlagSet::Order, command@);
        lemma_flag_words();
    }
    let ids = match last_of(&pairs, "--ids") {
        Some(v) => parse_ids(v.as_str()),
        None => Vec::new(),
    };
    if ids.len() == 0 {
        return Err(refuse(&concat(&chars_of(command), &chars_of(": pass --ids <hash1,hash2,...>"))));
    }
    let preset = named_preset(last_of(&pairs, "--preset"));
    Ok(OrderArgs {
        ids,
        preset,
        policy_json: last_of(&pairs, "--policy-json"),
        brief_json: last_of(&pairs, "--brief-json"),
        as_json: json_chosen(&pairs),
    })
}

/// The preset the policy of `audit` or `explain` must have: the brief's,
/// else the flag's; refused when both are given and differ.
pub fn order_preset(command: &str, preset: Option<PlaylistPreset>, brief_preset: Option<PlaylistPreset>) -> (r: Result<
    Option<PlaylistPreset>,
    SonagramError,
>)
    ensures
        (preset is Some && brief_preset is Some && preset != brief_preset) ==> r is Err && r->Err_0 is Playlist
            && r->Err_0.detail() == command@ + ": --preset does not match --brief-json"@,
        !(preset is Some && brief_preset is Some && preset != brief_preset) ==> r == Ok::<
            Option<PlaylistPreset>,
            SonagramError,
        >(if brief_preset is Some {
            brief_preset
        } else {
            preset
        }),
{
    match (preset, brief_preset) {
        (Some(p), Some(b)) => {
            if p != b {
                return Err(refuse(&concat(&chars_of(command), &chars_of(": --preset does not match --brief-json"))));
            }
        },
        _ => {},
    }
    if brief_preset.is_some() {
        Ok(brief_preset)
    } else {
        Ok(preset)
    }
}

/// A policy given as JSON must have the expected preset, if one is.
pub fn check_policy_preset(command: &str, expected: Option<PlaylistPreset>, policy_preset: PlaylistPreset) -> (r: Result<
    (),
    SonagramError,
>)
    ensures
        (expected is Some && expected != Some(policy_preset)) ==> r is Err && r->Err_0 is Playlist
            && r->Err_0.detail() == command@ + ": --preset does not match --policy-json"@,
        !(expected is Some && expected != Some(policy_preset)) ==> r is Ok,
{
    match expected {
        Some(p) => {
            if p != policy_preset {
                return Err(refuse(&concat(&chars_of(command), &chars_of(": --preset does not match --policy-json"))));
            }
            Ok(())
        },
        None => Ok(()),
    }
}

/// What `curate` was asked for.
pub struct CurateArgs {
    pub preset: Option<PlaylistPreset>,
    pub target_tracks: Option<usize>,
    pub target_duration_sec: Option<u64>,
    pub seed_ids: Option<Vec<String>>,
    pub brief_json: Option<String>,
    pub policy_json: Option<String>,
    pub name: Option<String>,
    pub description: Option<String>,
    pub as_json: bool,
}

/// The number a checked flag gives, if present.
pub open spec fn number_of(ps: Seq<(Seq<char>, Seq<char>)>, flag: Seq<char>, max: nat) -> Option<nat> {
    match last_value(ps, flag) {
        Some(v) => unsigned_value(v, max),
        None => None,
    }
}

/// The refusal of a brief given both as JSON and by flags.
pub open spec fn brief_conflict_detail() -> Seq<char> {
    "curate: --brief-json cannot be combined with --preset/--tracks/--duration-sec/--seed-ids"@
}

/// The number a checked flag value gives.
fn number_value(value: Option<String>, max: u64) -> (r: Option<u64>)
    requires
        value is Some ==> unsigned_value(value->Some_0@, max as nat) is Some,
    ensures
        match value {
            Some(v) => r is Some && r->Some_0 == unsigned_value(v@, max as nat)->Some_0,
            None => r is None,
        },
{
    match value {
        Some(v) => parse_unsigned(v.as_str(), max),
        None => None,
    }
}

/// Read the arguments of `curate`: the brief by flags (`--preset`,
/// `--tracks`, `--duration-sec`, `--seed-ids`) or as `--brief-json`, not
/// both; `--policy-json`, `--name`, `--description` and the output format.
pub fn parse_curate_args(args: &Vec<String>) -> (r: Result<CurateArgs, SonagramError>)
    requires
        args.len() < usize::MAX,
    ensures
        match scan_flags(args.deep_view(), 0, FlagSet::Curate, "curate"@) {
            Err(m) => r is Err && r->Err_0 is Playlist && r->Err_0.detail() == m,
            Ok(ps) => if last_value(ps, "--brief-json"@) is Some && (last_value(ps, "--preset"@) is Some
                || last_value(ps, "--tracks"@) is Some || last_value(ps, "--duration-sec"@) is Some
                || last_value(ps, "--seed-ids"@) is Some) {
                r is Err && r->Err_0 is Playlist && r->Err_0.detail() == brief_conflict_detail()
            } else {
                &&& r is Ok
                &&& r->Ok_0.preset == preset_of(ps)
                &&& match r->Ok_0.target_tracks {
                    Some(n) => number_of(ps, "--tracks"@, usize::MAX as nat) == Some(n as nat),
                    None => last_value(ps, "--tracks"@) is None,
                }
                &&& match r->Ok_0.target_duration_sec {
                    Some(n) => number_of(ps, "--duration-sec"@, u64::MAX as nat) == Some(n as nat),
                    None => last_value(ps, "--duration-sec"@) is None,
                }
                &&& match r->Ok_0.seed_ids {
                    Some(v) => last_value(ps, "--seed-ids"@) is Some && v.deep_view() == ids_of(
                        comma_pieces(last_value(ps, "--seed-ids"@)->Some_0),
                    ),
                    None => last_value(ps, "--seed-ids"@) is None,
                }
                &&& opt_view(r->Ok_0.brief_json) == last_value(ps, "--brief-json"@)
                &&& opt_view(r->Ok_0.policy_json) == last_value(ps, "--policy-json"@)
                &&& opt_view(r->Ok_0.name) == last_value(ps, "--name"@)
                &&& opt_view(r->Ok_0.description) == last_value(ps, "--description"@)
                &&& r->Ok_0.as_json == json_choice(ps)
            },
        },
{
    let pairs = match scan_command_flags(FlagSet::Curate, "curate", args) {
        Ok(p) => p,
        Err(e) => return Err(e),
    };
    proof {
        lemma_scanned_values_pass(args.deep_view(), 0, FlagSet::Curate, "curate"@);
        lemma_flag_words();
    }
    let preset_raw = last_of(&pairs, "--preset");
    let tracks_raw = last_of(&pairs, "--tracks");
    let duration_raw = last_of(&pairs, "--duration-sec");
    let seeds_raw = last_of(&pairs, "--seed-ids");
    let brief_json = last_of(&pairs, "--brief-json");
    if brief_json.is_some() && (preset_raw.is_some() || tracks_raw.is_some() || duration_raw.is_some()
        || seeds_raw.is_some()) {
        return Err(
            refuse(&chars_of("curate: --brief-json cannot be combined with --preset/--tracks/--duration-sec/--seed-ids")),
        );
    }
    let preset = named_preset(preset_raw);
    let target_tracks = match number_value(tracks_raw, usize::MAX as u64) {
        Some(n) => Some(n as usize),
        None => None,
    };
    let target_duration_sec = number_value(duration_raw, u64::MAX);
    let seed_ids = match seeds_raw {
        Some(v) => Some(parse_ids(v.as_str())),
        None => None,
    };
    Ok(CurateArgs {
        preset,
        target_tracks,
        target_duration_sec,
        seed_ids,
        brief_json,
        policy_json: last_of(&pairs, "--policy-json"),
        name: last_of(&pairs, "--name"),
        description: last_of(&pairs, "--description"),
        as_json: json_chosen(&pairs),
    })
}

/// The brief that the flags of `curate` describe: the default brief with the
/// preset, target, duration and seeds given.
pub fn brief_from_flags(
    preset: Option<PlaylistPreset>,
    target_tracks: Option<usize>,
    target_duration_sec: Option<u64>,
    seed_ids: Option<Vec<String>>,
) -> (r: PlaylistBrief)
    ensures
        r.preset == (match preset {
            Some(p) => p,
            None => PlaylistPreset::General,
        }),
        r.target_tracks == (match target_tracks {
            Some(n) => n,
            None => 25,
        }),
        r.target_duration_sec == target_duration_sec,
        r.seed_ids.deep_view() == (match seed_ids {
            Some(v) => v.deep_view(),
            None => Seq::empty(),
        }),
        r.seed_role == SeedRole::Pinned,
        r.unsupported_intents@.len() == 0,
{
    let mut brief = PlaylistBrief::default();
    if let Some(p) = preset {
        brief.preset = p;
    }
    if let Some(n) = target_tracks {
        brief.target_tracks = n;
    }
    brief.target_duration_sec = target_duration_sec;
    match seed_ids {
        Some(v) => {
            brief.seed_ids = v;
        },
        None => {
            assert(brief.seed_ids.deep_view() =~= Seq::<Seq<char>>::empty());
        },
    }
    brief
}

/// The preset the policy of `curate` must have: the brief's when the brief
/// came as JSON or a preset was named, else none.
pub fn curate_expected_preset(from_json: bool, flag_preset: Option<PlaylistPreset>, brief_preset: PlaylistPreset) -> (r: Option<
    PlaylistPreset,
>)
    ensures
        r == (if from_json || flag_preset is Some {
            Some(brief_preset)
        } else {
            None
        }),
{
    if from_json || flag_preset.is_some() {
        Some(brief_preset)
    } else {
        None
    }
}

// ───────────────────────────── sources, config, skill, mcp ─────────────────────────────

/// A refusal of configuration arguments.
fn refuse_config(msg: &[char]) -> (r: SonagramError)
    ensures
        r is Config,
        r.detail() == msg@,
{
    SonagramError::Config(string_of(msg))
}

/// The argument at `i` when it is present and not a `--` flag.
pub open spec fn positional_at(args: Seq<Seq<char>>, i: int) -> Option<Seq<char>> {
    if 0 <= i < args.len() && !"--"@.is_prefix_of(args[i]) {
        Some(args[i])
    } else {
        None
    }
}

fn positional_exec(args: &Vec<String>, i: usize) -> (r: Option<String>)
    ensures
        opt_view(r) == positional_at(args.deep_view(), i as int),
{
    if i < args.len() && !is_flag(args[i].as_str()) {
        assert(args.deep_view()[i as int] == args@[i as int]@);
        Some(string_of(&chars_of(args[i].as_str())))
    } else {
        if i < args.len() {
            assert(args.deep_view()[i as int] == args@[i as int]@);
        }
        None
    }
}

proof fn lemma_command_words()
    ensures
        "list"@.len() == 4,
        "add"@.len() == 3,
        "remove"@.len() == 6,
        "show"@.len() == 4,
        "set"@.len() == 3,
        "graph"@.len() == 5,
        "playlists_dir"@.len() == 13,
        "install"@.len() == 7,
{
    reveal_strlit("list");
    reveal_strlit("add");
    reveal_strlit("remove");
    reveal_strlit("show");
    reveal_strlit("set");
    reveal_strlit("graph");
    reveal_strlit("playlists_dir");
    reveal_strlit("install");
}

/// What `sources` was asked for.
pub enum SourcesCommand {
    Add(String),
    Remove(String),
    List,
}

/// Read the arguments of `sources`: `add <dir>`, `remove <dir>`, or `list`
/// (the default).
pub fn parse_sources_args(args: &Vec<String>) -> (r: Result<SourcesCommand, SonagramError>)
    ensures
        args.len() == 0 || args[0]@ == "list"@ ==> r is Ok && r->Ok_0 is List,
        args.len() > 0 && args[0]@ == "add"@ ==> match positional_at(args.deep_view(), 1) {
            Some(d) => r is Ok && (r->Ok_0 matches SourcesCommand::Add(x) && x@ == d),
            None => r is Err && r->Err_0 is Config && r->Err_0.detail() == "sources add: missing <dir>"@,
        },
        args.len() > 0 && args[0]@ == "remove"@ ==> match positional_at(args.deep_view(), 1) {
            Some(d) => r is Ok && (r->Ok_0 matches SourcesCommand::Remove(x) && x@ == d),
            None => r is Err && r->Err_0 is Config && r->Err_0.detail() == "sources remove: missing <dir>"@,
        },
        args.len() > 0 && args[0]@ != "list"@ && args[0]@ != "add"@ && args[0]@ != "remove"@ ==> r is Err
            && r->Err_0 is Config && r->Err_0.detail() == "sources: unknown subcommand '"@ + args[0]@
            + "' — try add/remove/list"@,
{
    proof {
        lemma_command_words();
    }
    if args.len() == 0 || same(args[0].as_str(), "list") {
        return Ok(SourcesCommand::List);
    }
    let sub = args[0].as_str();
    if same(sub, "add") {
        return match positional_exec(args, 1) {
            Some(d) => Ok(SourcesCommand::Add(d)),
            None => Err(refuse_config(&chars_of("sources add: missing <dir>"))),
        };
    }
    if same(sub, "remove") {
        return match positional_exec(args, 1) {
            Some(d) => Ok(SourcesCommand::Remove(d)),
            None => Err(refuse_config(&chars_of("sources remove: missing <dir>"))),
        };
    }
    let msg = concat(&concat(&chars_of("sources: unknown subcommand '"), &chars_of(sub)), &chars_of("' — try add/remove/list"));
    Err(refuse_config(&msg))
}

/// What `config` was asked for.
pub enum ConfigCommand {
    Show,
    /// Set a key (checked by [`config_key`] once the file is loaded) to a path.
    Assign(String, String),
}

/// Read the arguments of `config`: `show` (the default) or `set <key> <path>`.
pub fn parse_config_args(args: &Vec<String>) -> (r: Result<ConfigCommand, SonagramError>)
    ensures
        args.len() == 0 || args[0]@ == "show"@ ==> r is Ok && r->Ok_0 is Show,
        args.len() > 0 && args[0]@ == "set"@ ==> match (positional_at(args.deep_view(), 1), positional_at(
            args.deep_view(),
            2,
        )) {
            (Some(k), Some(v)) => r is Ok && (r->Ok_0 matches ConfigCommand::Assign(a, b) && a@ == k && b@ == v),
            (None, _) => r is Err && r->Err_0 is Config && r->Err_0.detail()
                == "config set: missing <key> (graph|playlists_dir)"@,
            (Some(_), None) => r is Err && r->Err_0 is Config && r->Err_0.detail() == "config set: missing <path>"@,
        },
        args.len() > 0 && args[0]@ != "show"@ && args[0]@ != "set"@ ==> r is Err && r->Err_0 is Config
            && r->Err_0.detail() == "config: unknown subcommand '"@ + args[0]@
            + "' — try `config` or `config set <key> <path>`"@,
{
    proof {
        lemma_command_words();
    }
    if args.len() == 0 || same(args[0].as_str(), "show") {
        return Ok(ConfigCommand::Show);
    }
    let sub = args[0].as_str();
    if same(sub, "set") {
        let key = match positional_exec(args, 1) {
            Some(k) => k,
            None => return Err(refuse_config(&chars_of("config set: missing <key> (graph|playlists_dir)"))),
        };
        let val = match positional_exec(args, 2) {
            Some(v) => v,
            None => return Err(refuse_config(&chars_of("config set: missing <path>"))),
        };
        return Ok(ConfigCommand::Assign(key, val));
    }
    let msg = concat(
        &concat(&chars_of("config: unknown subcommand '"), &chars_of(sub)),
        &chars_of("' — try `config` or `config set <key> <path>`"),
    );
    Err(refuse_config(&msg))
}

/// The keys `config set` can change.
#[derive(Debug, Clone, Copy, PartialEq, Eq, Structural)]
pub enum ConfigKey {
    Graph,
    PlaylistsDir,
}

/// The key `config set` names.
pub fn config_key(key: &str) -> (r: Result<ConfigKey, SonagramError>)
    ensures
        key@ == "graph"@ ==> r == Ok::<ConfigKey, SonagramError>(ConfigKey::Graph),
        key@ == "playlists_dir"@ ==> r == Ok::<ConfigKey, SonagramError>(ConfigKey::PlaylistsDir),
        key@ != "graph"@ && key@ != "playlists_dir"@ ==> r is Err && r->Err_0 is Config && r->Err_0.detail()
            == "config set: unknown key '"@ + key@ + "' (expected graph|playlists_dir)"@,
{
    proof {
        lemma_command_words();
    }
    if same(key, "graph") {
        Ok(ConfigKey::Graph)
    } else if same(key, "playlists_dir") {
        Ok(ConfigKey::PlaylistsDir)
    } else {
        let msg = concat(
            &concat(&chars_of("config set: unknown key '"), &chars_of(key)),
            &chars_of("' (expected graph|playlists_dir)"),
        );
        Err(refuse_config(&msg))
    }
}

/// Read the arguments of `mcp`: `install`, optionally with `--force`;
/// returns whether to force.
pub fn parse_mcp_args(args: &Vec<String>) -> (r: Result<bool, SonagramError>)
    ensures
        args.len() == 0 ==> r is Err && r->Err_0 is Config && r->Err_0.detail() == "mcp: pass `install [--force]`"@,
        args.len() > 0 && args[0]@ != "install"@ ==> r is Err && r->Err_0 is Config && r->Err_0.detail()
            == "mcp: unknown subcommand '"@ + args[0]@ + "' — try `install`"@,
        args.len() > 0 && args[0]@ == "install"@ ==> match (exists|i: int|
            1 <= i < args.len() && #[trigger] args[i]@ != "--force"@) {
            true => r is Err && r->Err_0 is Config && r->Err_0.detail() == "mcp install: unexpected argument '"@
                + args[first_other(args.deep_view(), "--force"@, 1)]@ + "' — try [--force]"@,
            false => r == Ok::<bool, SonagramError>(args.len() > 1),
        },
{
    if args.len() == 0 {
        return Err(refuse_config(&chars_of("mcp: pass `install [--force]`")));
    }
    let sub = args[0].as_str();
    if !same(sub, "install") {
        let msg = concat(&concat(&chars_of("mcp: unknown subcommand '"), &chars_of(sub)), &chars_of("' — try `install`"));
        return Err(refuse_config(&msg));
    }
    let mut force = false;
    let mut i: usize = 1;
    while i < args.len()
        invariant
            1 <= i <= args.len(),
            args@[0]@ == "install"@,
            force == (i > 1),
            forall|k: int| 1 <= k < i ==> args@[k]@ == "--force"@,
        decreases args.len() - i,
    {
        if !same(args[i].as_str(), "--force") {
            proof {
                lemma_first_other(args.deep_view(), "--force"@, 1, i as int);
            }
            let msg = concat(
                &concat(&chars_of("mcp install: unexpected argument '"), &chars_of(args[i].as_str())),
                &chars_of("' — try [--force]"),
            );
            return Err(refuse_config(&msg));
        }
        force = true;
        i += 1;
    }
    Ok(force)
}

/// The position of the first argument from `i` on that is not `word`.
pub open spec fn first_other(args: Seq<Seq<char>>, word: Seq<char>, i: int) -> int
    decreases args.len() - i,
{
    if i >= args.len() || i < 0 || args[i] != word {
        i
    } else {
        first_other(args, word, i + 1)
    }
}

proof fn lemma_first_other(args: Seq<Seq<char>>, word: Seq<char>, i: int, j: int)
    requires
        0 <= i <= j < args.len(),
        forall|k: int| i <= k < j ==> args[k] == word,
        args[j] != word,
    ensures
        first_other(args, word, i) == j,
    decreases j - i,
{
    if i < j {
        lemma_first_other(args, word, i + 1, j);
    }
}

/// What `skill` was asked for.
pub enum SkillCommand {
    Show,
    /// Install into a skills root (the default one when absent), overwriting
    /// when forced.
    Install(Option<String>, bool),
}

/// The flags of `skill install` from position `i` on, given the directory
/// and forcing chosen so far; a refusal is its message, with whether it is
/// a configuration error (a missing value is a usage error).
pub open spec fn skill_scan(args: Seq<Seq<char>>, i: int, dir: Option<Seq<char>>, force: bool) -> Result<
    (Option<Seq<char>>, bool),
    (bool, Seq<char>),
>
    decreases args.len() - i,
{
    if i >= args.len() || i < 0 {
        Ok((dir, force))
    } else if args[i] == "--dir"@ {
        if i + 1 < args.len() {
            skill_scan(args, i + 2, Some(args[i + 1]), force)
        } else {
            Err((false, flag_needs_value_detail(args[i])))
        }
    } else if args[i] == "--force"@ {
        skill_scan(args, i + 1, dir, true)
    } else {
        Err((true, "skill install: unexpected argument '"@ + args[i] + "' — try [--dir <skills_root>] [--force]"@))
    }
}

/// The error a refusal of `skill` arguments is raised as.
pub open spec fn raised_as(e: SonagramError, refusal: (bool, Seq<char>)) -> bool {
    (if refusal.0 {
        e is Config
    } else {
        e is Playlist
    }) && e.detail() == refusal.1
}

/// Read the arguments of `skill`: `show`, or `install` with `--dir
/// <skills_root>` and `--force`.
pub fn parse_skill_args(args: &Vec<String>) -> (r: Result<SkillCommand, SonagramError>)
    requires
        args.len() < usize::MAX,
    ensures
        args.len() == 0 ==> r is Err && r->Err_0 is Config && r->Err_0.detail()
            == "skill: pass `show` or `install [--dir <skills_root>] [--force]`"@,
        args.len() > 0 && args[0]@ == "show"@ ==> r is Ok && r->Ok_0 is Show,
        args.len() > 0 && args[0]@ == "install"@ ==> match skill_scan(args.deep_view(), 1, None, false) {
            Ok((d, f)) => r is Ok && (r->Ok_0 matches SkillCommand::Install(x, y) && opt_view(x) == d && y == f),
            Err(m) => r is Err && raised_as(r->Err_0, m),
        },
        args.len() > 0 && args[0]@ != "show"@ && args[0]@ != "install"@ ==> r is Err && r->Err_0 is Config
            && r->Err_0.detail() == "skill: unknown subcommand '"@ + args[0]@ + "' — try `show` or `install`"@,
{
    proof {
        lemma_command_words();
    }
    if args.len() == 0 {
        return Err(refuse_config(&chars_of("skill: pass `show` or `install [--dir <skills_root>] [--force]`")));
    }
    let ghost av = args.deep_view();
    let sub = args[0].as_str();
    if same(sub, "show") {
        return Ok(SkillCommand::Show);
    }
    if !same(sub, "install") {
        let msg = concat(
            &concat(&chars_of("skill: unknown subcommand '"), &chars_of(sub)),
            &chars_of("' — try `show` or `install`"),
        );
        return Err(refuse_config(&msg));
    }
    let mut dir: Option<String> = None;
    let mut force = false;
    let mut i: usize = 1;
    while i < args.len()
        invariant
            1 <= i <= args.len(),
            args.len() < usize::MAX,
            av == args.deep_view(),
            args@[0]@ == "install"@,
            args@[0]@ != "show"@,
            skill_scan(av, 1, None, false) == skill_scan(av, i as int, opt_view(dir), force),
        decreases args.len() - i,
    {
        let a = args[i].as_str();
        assert(av[i as int] == a@);
        if same(a, "--dir") {
            let mut j = i;
            let v = match flag_value(args, &mut j, a) {
                Ok(v) => v,
                Err(e) => return Err(e),
            };
            dir = Some(v);
            i += 2;
        } else if same(a, "--force") {
            force = true;
            i += 1;
        } else {
            let msg = concat(
                &concat(&chars_of("skill install: unexpected argument '"), &chars_of(a)),
                &chars_of("' — try [--dir <skills_root>] [--force]"),
            );
            return Err(refuse_config(&msg));
        }
    }
    Ok(SkillCommand::Install(dir, force))
}

// ───────────────────────────── the command line ─────────────────────────────

/// The subcommands.
#[derive(Debug, Clone, Copy, PartialEq, Eq, Structural)]
pub enum Subcommand {
    Scan,
    Enrich,
    Build,
    Playlist,
    Profile,
    Policy,
    Curate,
    Audit,
    Explain,
    Playlists,
    Sources,
    Config,
    Skill,
    Mcp,
    Progress,
    Status,
}

/// The subcommand a word names.
pub open spec fn subcommand_named(w: Seq<char>) -> Option<Subcommand> {
    if w == "scan"@ {
        Some(Subcommand::Scan)
    } else if w == "enrich"@ {
        Some(Subcommand::Enrich)
    } else if w == "build"@ {
        Some(Subcommand::Build)
    } else if w == "playlist"@ {
        Some(Subcommand::Playlist)
    } else if w == "profile"@ {
        Some(Subcommand::Profile)
    } else if w == "policy"@ {
        Some(Subcommand::Policy)
    } else if w == "curate"@ {
        Some(Subcommand::Curate)
    } else if w == "audit"@ {
        Some(Subcommand::Audit)
    } else if w == "explain"@ {
        Some(Subcommand::Explain)
    } else if w == "playlists"@ {
        Some(Subcommand::Playlists)
    } else if w == "sources"@ {
        Some(Subcommand::Sources)
    } else if w == "config"@ {
        Some(Subcommand::Config)
    } else if w == "skill"@ {
        Some(Subcommand::Skill)
    } else if w == "mcp"@ {
        Some(Subcommand::Mcp)
    } else if w == "progress"@ {
        Some(Subcommand::Progress)
    } else if w == "status"@ {
        Some(Subcommand::Status)
    } else {
        None
    }
}

fn subcommand_exec(w: &str) -> (r: Option<Subcommand>)
    ensures
        r == subcommand_named(w@),
{
    if same(w, "scan") {
        Some(Subcommand::Scan)
    } else if same(w, "enrich") {
        Some(Subcommand::Enrich)
    } else if same(w, "build") {
        Some(Subcommand::Build)
    } else if same(w, "playlist") {
        Some(Subcommand::Playlist)
    } else if same(w, "profile") {
        Some(Subcommand::Profile)
    } else if same(w, "policy") {
        Some(Subcommand::Policy)
    } else if same(w, "curate") {
        Some(Subcommand::Curate)
    } else if same(w, "audit") {
        Some(Subcommand::Audit)
    } else if same(w, "explain") {
        Some(Subcommand::Explain)
    } else if same(w, "playlists") {
        Some(Subcommand::Playlists)
    } else if same(w, "sources") {
        Some(Subcommand::Sources)
    } else if same(w, "config") {
        Some(Subcommand::Config)
    } else if same(w, "skill") {
        Some(Subcommand::Skill)
    } else if same(w, "mcp") {
        Some(Subcommand::Mcp)
    } else if same(w, "progress") {
        Some(Subcommand::Progress)
    } else if same(w, "status") {
        Some(Subcommand::Status)
    } else {
        None
    }
}

/// Where the command line goes.
pub enum Route {
    Help,
    Version,
    /// A subcommand, given the arguments after its name.
    Run(Subcommand),
    /// An unknown subcommand word.
    Unknown(String),
}

/// The route of a command line: help when any argument asks for it (except
/// under `playlist`, which has its own) or there is no subcommand; the
/// version; a subcommand; or an unknown word.
pub open spec fn routes_to(args: Seq<Seq<char>>, r: Route) -> bool {
    if asks_help(args) && !(args.len() > 0 && args[0] == "playlist"@) {
        r is Help
    } else if args.len() == 0 || args[0] == "--help"@ || args[0] == "-h"@ || args[0] == "help"@ {
        r is Help
    } else if args[0] == "--version"@ || args[0] == "-V"@ || args[0] == "version"@ {
        r is Version
    } else {
        match subcommand_named(args[0]) {
            Some(c) => r == Route::Run(c),
            None => r matches Route::Unknown(w) && w@ == args[0],
        }
    }
}

/// Route a command line (see [`routes_to`]).
pub fn route(args: &Vec<String>) -> (r: Route)
    ensures
        routes_to(args.deep_view(), r),
{
    let ghost av = args.deep_view();
    if args.len() > 0 {
        assert(av[0] == args@[0]@);
    }
    if help_requested(args) && !(args.len() > 0 && same(args[0].as_str(), "playlist")) {
        return Route::Help;
    }
    if args.len() == 0 {
        return Route::Help;
    }
    let first = args[0].as_str();
    if same(first, "--help") || same(first, "-h") || same(first, "help") {
        return Route::Help;
    }
    if same(first, "--version") || same(first, "-V") || same(first, "version") {
        return Route::Version;
    }
    match subcommand_exec(first) {
        Some(c) => Route::Run(c),
        None => Route::Unknown(string_of(&chars_of(first))),
    }
}

// ───────────────────────────── progress ─────────────────────────────

/// Why the arguments of `progress` are refused.
pub enum ProgressRefusal {
    /// `--format` with a value other than `json` or `human` (or none).
    BadFormat(Option<String>),
    /// An unknown `--` flag.
    Unexpected(String),
}

/// The outcome of the arguments of `progress` from position `i` on, given
/// the root and format so far: `--format json|human`, `--json`, and
/// positional roots (the last one counts).
pub open spec fn progress_scan(args: Seq<Seq<char>>, i: int, root: Option<Seq<char>>, json: bool) -> Result<
    (Option<Seq<char>>, bool),
    (bool, Option<Seq<char>>),
>
    decreases args.len() - i,
{
    if i >= args.len() || i < 0 {
        Ok((root, json))
    } else {
        let a = args[i];
        if a == "--format"@ {
            if i + 1 < args.len() && args[i + 1] == "json"@ {
                progress_scan(args, i + 2, root, true)
            } else if i + 1 < args.len() && args[i + 1] == "human"@ {
                progress_scan(args, i + 2, root, false)
            } else {
                Err((true, if i + 1 < args.len() {
                    Some(args[i + 1])
                } else {
                    None
                }))
            }
        } else if a == "--json"@ {
            progress_scan(args, i + 1, root, true)
        } else if "--"@.is_prefix_of(a) {
            Err((false, Some(a)))
        } else {
            progress_scan(args, i + 1, Some(a), json)
        }
    }
}

/// Read the arguments of `progress` (see [`progress_scan`]; a refusal is
/// `(true, value)` for a bad format, `(false, Some(flag))` for an unknown
/// flag).
pub fn parse_progress_args(args: &Vec<String>) -> (r: Result<StatusArgs, ProgressRefusal>)
    ensures
        match progress_scan(args.deep_view(), 0, None, false) {
            Ok((root, json)) => r is Ok && opt_view(r->Ok_0.root) == root && r->Ok_0.as_json == json,
            Err((true, v)) => r is Err && (r->Err_0 matches ProgressRefusal::BadFormat(x) && opt_view(x) == v),
            Err((false, v)) => r is Err && (r->Err_0 matches ProgressRefusal::Unexpected(x) && Some(x@) == v),
        },
{
    let ghost av = args.deep_view();
    let mut root: Option<String> = None;
    let mut as_json = false;
    let mut i: usize = 0;
    while i < args.len()
        invariant
            i <= args.len(),
            av == args.deep_view(),
            progress_scan(av, 0, None, false) == progress_scan(av, i as int, opt_view(root), as_json),
        decreases args.len() - i,
    {
        let a = args[i].as_str();
        assert(av[i as int] == a@);
        if same(a, "--format") {
            if i + 1 < args.len() {
                assert(av[i as int + 1] == args@[i as int + 1]@);
            }
            if i + 1 < args.len() && same(args[i + 1].as_str(), "json") {
                as_json = true;
                i += 2;
            } else if i + 1 < args.len() && same(args[i + 1].as_str(), "human") {
                as_json = false;
                i += 2;
            } else {
                let v = if i + 1 < args.len() {
                    Some(string_of(&chars_of(args[i + 1].as_str())))
                } else {
                    None
                };
                return Err(ProgressRefusal::BadFormat(v));
            }
        } else if same(a, "--json") {
            as_json = true;
            i += 1;
        } else if is_flag(a) {
            return Err(ProgressRefusal::Unexpected(string_of(&chars_of(a))));
        } else {
            root = Some(string_of(&chars_of(a)));
            i += 1;
        }
    }
    Ok(StatusArgs { root, as_json })
}

// ───────────────────────────── scan and build ─────────────────────────────

/// The arguments of `scan` from position `i` on, given the root and whether
/// enrichment runs: `--no-enrich` and at most one positional root.
pub open spec fn scan_args_scan(args: Seq<Seq<char>>, i: int, root: Option<Seq<char>>, enrich: bool) -> Result<
    (Option<Seq<char>>, bool),
    Seq<char>,
>
    decreases args.len() - i,
{
    if i >= args.len() || i < 0 {
        Ok((root, enrich))
    } else {
        let a = args[i];
        if a == "--no-enrich"@ {
            scan_args_scan(args, i + 1, root, false)
        } else if "--"@.is_prefix_of(a) {
            Err("scan: unexpected argument '"@ + a + "' — try [<library_root>] [--no-enrich]"@)
        } else if root is Some {
            Err("scan: unexpected extra argument '"@ + a + "'"@)
        } else {
            scan_args_scan(args, i + 1, Some(a), enrich)
        }
    }
}

/// What `scan` was asked for.
pub struct ScanArgs {
    pub root: Option<String>,
    pub with_enrich: bool,
}

/// Read the arguments of `scan` (see [`scan_args_scan`]).
pub fn parse_scan_args(args: &Vec<String>) -> (r: Result<ScanArgs, SonagramError>)
    ensures
        match scan_args_scan(args.deep_view(), 0, None, true) {
            Ok((root, enrich)) => r is Ok && opt_view(r->Ok_0.root) == root && r->Ok_0.with_enrich == enrich,
            Err(m) => r is Err && r->Err_0 is Config && r->Err_0.detail() == m,
        },
{
    let ghost av = args.deep_view();
    let mut root: Option<String> = None;
    let mut with_enrich = true;
    let mut i: usize = 0;
    while i < args.len()
        invariant
            i <= args.len(),
            av == args.deep_view(),
            scan_args_scan(av, 0, None, true) == scan_args_scan(av, i as int, opt_view(root), with_enrich),
        decreases args.len() - i,
    {
        let a = args[i].as_str();
        assert(av[i as int] == a@);
        if same(a, "--no-enrich") {
            with_enrich = false;
        } else if is_flag(a) {
            let msg = concat(
                &concat(&chars_of("scan: unexpected argument '"), &chars_of(a)),
                &chars_of("' — try [<library_root>] [--no-enrich]"),
            );
            return Err(refuse_config(&msg));
        } else if root.is_some() {
            let msg = concat(&concat(&chars_of("scan: unexpected extra argument '"), &chars_of(a)), &chars_of("'"));
            return Err(refuse_config(&msg));
        } else {
            root = Some(string_of(&chars_of(a)));
        }
        i += 1;
    }
    Ok(ScanArgs { root, with_enrich })
}

/// The arguments among the first `n` that are not `--` flags, in order.
pub open spec fn positionals_upto(args: Seq<Seq<char>>, n: int) -> Seq<Seq<char>>
    decreases n,
{
    if n <= 0 {
        Seq::empty()
    } else if "--"@.is_prefix_of(args[n - 1]) {
        positionals_upto(args, n - 1)
    } else {
        positionals_upto(args, n - 1).push(args[n - 1])
    }
}

/// Read the arguments of `build`: two positionals (library root and output
/// graph) or none (every configured source); flags are ignored.
pub fn parse_build_args(args: &Vec<String>) -> (r: Result<Option<(String, String)>, SonagramError>)
    ensures
        ({
            let ps = positionals_upto(args.deep_view(), args.len() as int);
            &&& ps.len() == 2 ==> r is Ok && r->Ok_0 is Some && r->Ok_0->Some_0.0@ == ps[0]
                && r->Ok_0->Some_0.1@ == ps[1]
            &&& ps.len() == 0 ==> r == Ok::<Option<(String, String)>, SonagramError>(None)
            &&& ps.len() != 0 && ps.len() != 2 ==> r is Err && r->Err_0 is Graph && r->Err_0.detail()
                == "build: pass `<library_root> <out.kgl>` (explicit) or no args (config-driven)"@
        }),
{
    let ghost av = args.deep_view();
    let mut ps: Vec<String> = Vec::new();
    let mut i: usize = 0;
    while i < args.len()
        invariant
            i <= args.len(),
            av == args.deep_view(),
            ps.deep_view() == positionals_upto(av, i as int),
        decreases args.len() - i,
    {
        let a = args[i].as_str();
        assert(av[i as int] == a@);
        if !is_flag(a) {
            let ghost p0 = ps.deep_view();
            ps.push(string_of(&chars_of(a)));
            assert(ps.deep_view() =~= p0.push(a@));
        }
        i += 1;
    }
    if ps.len() == 2 {
        Ok(Some((string_of(&chars_of(ps[0].as_str())), string_of(&chars_of(ps[1].as_str())))))
    } else if ps.len() == 0 {
        Ok(None)
    } else {
        Err(SonagramError::Graph(
            string_of(&chars_of("build: pass `<library_root> <out.kgl>` (explicit) or no args (config-driven)")),
        ))
    }
}

/// The library label of a build over several sources: the one source's
/// root, or `multi-source`.
pub fn multi_library_label(roots: &Vec<String>) -> (r: String)
    ensures
        roots.len() == 1 ==> r@ == roots[0]@,
        roots.len() != 1 ==> r@ == "multi-source"@,
{
    if roots.len() == 1 {
        string_of(&chars_of(roots[0].as_str()))
    } else {
        string_of(&chars_of("multi-source"))
    }
}

} // verus!
