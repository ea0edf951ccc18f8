//! The request checks of the music MCP server: its command line, and the
//! argument rules of the playlist-store methods, decided before any file or
//! config is touched.

use vstd::prelude::*;

use crate::curation::{PlaylistPreset, CURATION_POLICY_VERSION};
use crate::error::SonagramError;
use crate::text::{chars_eq, chars_of, slice_chars, starts_with, string_of};

verus! {

/// The arguments of a playlist deletion.
pub struct PlaylistDeleteArgs {
    pub slug: String,
    /// Must repeat `slug` exactly.
    pub confirm_slug: String,
}

/// `"confirm_slug must exactly match slug"`.
pub open spec fn confirm_mismatch_detail() -> Seq<char> {
    seq![
        'c', 'o', 'n', 'f', 'i', 'r', 'm', '_', 's', 'l', 'u', 'g', ' ', 'm', 'u', 's', 't', ' ',
        'e', 'x', 'a', 'c', 't', 'l', 'y', ' ', 'm', 'a', 't', 'c', 'h', ' ', 's', 'l', 'u', 'g'
    ]
}

/// Check a deletion request: the slug to delete when the confirmation
/// repeats it exactly, else a playlist error (before anything is read).
pub fn delete_playlist(args: PlaylistDeleteArgs) -> (r: Result<String, SonagramError>)
    ensures
        args.confirm_slug@ == args.slug@ ==> r is Ok && r->Ok_0@ == args.slug@,
        args.confirm_slug@ != args.slug@ ==> r is Err && r->Err_0 is Playlist
            && r->Err_0.detail() == confirm_mismatch_detail(),
{
    if !chars_eq(&chars_of(args.confirm_slug.as_str()), &chars_of(args.slug.as_str())) {
        let m = "confirm_slug must exactly match slug";
        proof {
            reveal_strlit("confirm_slug must exactly match slug");
            assert(m@ =~= confirm_mismatch_detail());
        }
        return Err(SonagramError::Playlist(string_of(&chars_of(m))));
    }
    Ok(args.slug)
}

/// `"pass exactly one of description or clear_description=true"`.
pub open spec fn update_args_detail() -> Seq<char> {
    seq![
        'p', 'a', 's', 's', ' ', 'e', 'x', 'a', 'c', 't', 'l', 'y', ' ', 'o', 'n', 'e', ' ', 'o',
        'f', ' ', 'd', 'e', 's', 'c', 'r', 'i', 'p', 't', 'i', 'o', 'n', ' ', 'o', 'r', ' ', 'c',
        'l', 'e', 'a', 'r', '_', 'd', 'e', 's', 'c', 'r', 'i', 'p', 't', 'i', 'o', 'n', '=', 't',
        'r', 'u', 'e'
    ]
}

/// The description an update sets: exactly one of a new description or a
/// clear must be asked for; a clear sets none.
pub fn update_description(description: Option<String>, clear_description: bool) -> (r: Result<Option<String>, SonagramError>)
    ensures
        (description is Some) == clear_description ==> r is Err && r->Err_0 is Playlist
            && r->Err_0.detail() == update_args_detail(),
        (description is Some) != clear_description ==> r is Ok && r->Ok_0 == description,
{
    if description.is_some() == clear_description {
        let m = "pass exactly one of description or clear_description=true";
        proof {
            reveal_strlit("pass exactly one of description or clear_description=true");
            assert(m@ =~= update_args_detail());
        }
        return Err(SonagramError::Playlist(string_of(&chars_of(m))));
    }
    Ok(description)
}

// ───────────────────────────── command line ─────────────────────────────

/// Why the server's command line was refused.
#[derive(Debug, Clone, Copy, PartialEq, Eq, Structural)]
pub enum StartupError {
    /// `--graph` with no path after it, or `--graph=` with an empty one.
    MissingPath,
    /// More than one graph given.
    Duplicate,
    /// `--writable` asked for; the server is read-only.
    Writable,
    /// No graph given at all.
    NoGraph,
}

/// `"--graph"`.
pub open spec fn graph_flag() -> Seq<char> {
    seq!['-', '-', 'g', 'r', 'a', 'p', 'h']
}

/// `"--graph="`.
pub open spec fn graph_eq_flag() -> Seq<char> {
    seq!['-', '-', 'g', 'r', 'a', 'p', 'h', '=']
}

/// `"--writable"`.
pub open spec fn writable_flag() -> Seq<char> {
    seq!['-', '-', 'w', 'r', 'i', 't', 'a', 'b', 'l', 'e']
}

/// Store a graph path, refusing a second one.
pub open spec fn set_graph_of(slot: Option<Seq<char>>, value: Seq<char>) -> Result<Option<Seq<char>>, StartupError> {
    if slot is Some {
        Err(StartupError::Duplicate)
    } else {
        Ok(Some(value))
    }
}

/// The graph chosen by the arguments from position `i` on, given what was
/// chosen before it.
pub open spec fn scan_args(argv: Seq<Seq<char>>, i: int, slot: Option<Seq<char>>) -> Result<Option<Seq<char>>, StartupError>
    decreases argv.len() - i,
{
    if i >= argv.len() || i < 0 {
        Ok(slot)
    } else {
        let v = argv[i];
        if v == graph_flag() {
            if i + 1 >= argv.len() {
                Err(StartupError::MissingPath)
            } else {
                match set_graph_of(slot, argv[i + 1]) {
                    Ok(s) => scan_args(argv, i + 2, s),
                    Err(e) => Err(e),
                }
            }
        } else if graph_eq_flag().is_prefix_of(v) {
            let p = v.skip(8);
            if p.len() == 0 {
                Err(StartupError::MissingPath)
            } else {
                match set_graph_of(slot, p) {
                    Ok(s) => scan_args(argv, i + 1, s),
                    Err(e) => Err(e),
                }
            }
        } else if v == writable_flag() {
            Err(StartupError::Writable)
        } else {
            scan_args(argv, i + 1, slot)
        }
    }
}

/// The graph path the server's arguments (program name first) select.
pub open spec fn startup_graph_of(argv: Seq<Seq<char>>) -> Result<Seq<char>, StartupError> {
    match scan_args(argv, 1, None) {
        Ok(Some(p)) => Ok(p),
        Ok(None) => Err(StartupError::NoGraph),
        Err(e) => Err(e),
    }
}

/// An optional string as plain values.
pub open spec fn opt_string_view(o: Option<String>) -> Option<Seq<char>> {
    match o {
        Some(s) => Some(s@),
        None => None,
    }
}

/// Store a graph path into `slot`, refusing a second one.
pub fn set_graph_arg(slot: &mut Option<String>, value: String) -> (r: Result<(), StartupError>)
    ensures
        old(slot).is_some() ==> r == Err::<(), StartupError>(StartupError::Duplicate),
        old(slot).is_none() ==> r is Ok && *final(slot) == Some(value),
{
    if slot.is_some() {
        return Err(StartupError::Duplicate);
    }
    *slot = Some(value);
    Ok(())
}

/// Select the graph from the server's arguments (program name first):
/// exactly one `--graph <path>` or `--graph=<path>`, and no `--writable`.
pub fn startup_graph_arg(argv: &Vec<String>) -> (r: Result<String, StartupError>)
    ensures
        match startup_graph_of(argv.deep_view()) {
            Ok(p) => r is Ok && r->Ok_0@ == p,
            Err(e) => r == Err::<String, StartupError>(e),
        },
{
    let ghost av = argv.deep_view();
    let flag = vec!['-', '-', 'g', 'r', 'a', 'p', 'h'];
    let flag_eq = vec!['-', '-', 'g', 'r', 'a', 'p', 'h', '='];
    let writable = vec!['-', '-', 'w', 'r', 'i', 't', 'a', 'b', 'l', 'e'];
    proof {
        assert(flag@ =~= graph_flag());
        assert(flag_eq@ =~= graph_eq_flag());
        assert(writable@ =~= writable_flag());
    }
    let mut slot: Option<String> = None;
    let mut i: usize = 1;
    while i < argv.len()
        invariant
            1 <= i,
            av == argv.deep_view(),
            flag@ == graph_flag(),
            flag_eq@ == graph_eq_flag(),
            writable@ == writable_flag(),
            scan_args(av, 1, None) == scan_args(av, i as int, opt_string_view(slot)),
        decreases argv.len() - i,
    {
        let v = chars_of(argv[i].as_str());
        assert(v@ == av[i as int]);
        if chars_eq(&v, &flag) {
            if i + 1 >= argv.len() {
                return Err(StartupError::MissingPath);
            }
            let path = argv[i + 1].clone();
            assert(path@ == av[i as int + 1]);
            match set_graph_arg(&mut slot, path) {
                Ok(()) => {},
                Err(e) => {
                    return Err(e);
                },
            }
            i += 2;
        } else if starts_with(&v, &flag_eq) {
            let p = slice_chars(&v, 8, v.len());
            assert(p@ =~= v@.skip(8));
            if p.len() == 0 {
                return Err(StartupError::MissingPath);
            }
            match set_graph_arg(&mut slot, string_of(&p)) {
                Ok(()) => {},
                Err(e) => {
                    return Err(e);
                },
            }
            i += 1;
        } else if chars_eq(&v, &writable) {
            return Err(StartupError::Writable);
        } else {
            i += 1;
        }
    }
    match slot {
        Some(p) => Ok(p),
        None => Err(StartupError::NoGraph),
    }
}

/// The text of a refused command line.
pub open spec fn startup_error_detail(e: StartupError) -> Seq<char> {
    match e {
        StartupError::MissingPath => seq![
            's', 'o', 'n', 'a', 'g', 'r', 'a', 'm', '-', 'm', 'c', 'p', '-', 's', 'e', 'r', 'v',
            'e', 'r', ':', ' ', '-', '-', 'g', 'r', 'a', 'p', 'h', ' ', 'r', 'e', 'q', 'u', 'i',
            'r', 'e', 's', ' ', 'a', ' ', 'p', 'a', 't', 'h'
        ],
        StartupError::Duplicate => seq![
            's', 'o', 'n', 'a', 'g', 'r', 'a', 'm', '-', 'm', 'c', 'p', '-', 's', 'e', 'r', 'v',
            'e', 'r', ' ', 'a', 'c', 'c', 'e', 'p', 't', 's', ' ', 'e', 'x', 'a', 'c', 't', 'l',
            'y', ' ', 'o', 'n', 'e', ' ', '-', '-', 'g', 'r', 'a', 'p', 'h', ' ', 'a', 'r', 'g',
            'u', 'm', 'e', 'n', 't'
        ],
        StartupError::Writable => seq![
            's', 'o', 'n', 'a', 'g', 'r', 'a', 'm', '-', 'm', 'c', 'p', '-', 's', 'e', 'r', 'v',
            'e', 'r', ' ', 'i', 's', ' ', 'i', 'n', 't', 'e', 'n', 't', 'i', 'o', 'n', 'a', 'l',
            'l', 'y', ' ', 'r', 'e', 'a', 'd', '-', 'o', 'n', 'l', 'y', ';', ' ', '-', '-', 'w',
            'r', 'i', 't', 'a', 'b', 'l', 'e', ' ', 'i', 's', ' ', 'u', 'n', 's', 'u', 'p', 'p',
            'o', 'r', 't', 'e', 'd'
        ],
        StartupError::NoGraph => seq![
            's', 'o', 'n', 'a', 'g', 'r', 'a', 'm', '-', 'm', 'c', 'p', '-', 's', 'e', 'r', 'v',
            'e', 'r', ' ', 'r', 'e', 'q', 'u', 'i', 'r', 'e', 's', ' ', 's', 't', 'a', 't', 'i',
            'c', ' ', '-', '-', 'g', 'r', 'a', 'p', 'h', ' ', '<', 'm', 'u', 's', 'i', 'c', '.',
            'k', 'g', 'l', '>', ' ', 'm', 'o', 'd', 'e'
        ],
    }
}

/// The config error for a refused command line.
pub fn startup_error(e: StartupError) -> (r: SonagramError)
    ensures
        r is Config && r.detail() == startup_error_detail(e),
{
    let m = match e {
        StartupError::MissingPath => {
            let s = "sonagram-mcp-server: --graph requires a path";
            proof {
                reveal_strlit("sonagram-mcp-server: --graph requires a path");
            }
            s
        },
        StartupError::Duplicate => {
            let s = "sonagram-mcp-server accepts exactly one --graph argument";
            proof {
                reveal_strlit("sonagram-mcp-server accepts exactly one --graph argument");
            }
            s
        },
        StartupError::Writable => {
            let s = "sonagram-mcp-server is intentionally read-only; --writable is unsupported";
            proof {
                reveal_strlit("sonagram-mcp-server is intentionally read-only; --writable is unsupported");
            }
            s
        },
        StartupError::NoGraph => {
            let s = "sonagram-mcp-server requires static --graph <music.kgl> mode";
            proof {
                reveal_strlit("sonagram-mcp-server requires static --graph <music.kgl> mode");
            }
            s
        },
    };
    assert(m@ =~= startup_error_detail(e));
    SonagramError::Config(string_of(&chars_of(m)))
}

// ───────────────────────────── policy identity ─────────────────────────────

/// Why a requested policy was refused.
#[derive(Debug, Clone, Copy, PartialEq, Eq, Structural)]
pub enum PolicyMismatch {
    /// The preset differs from the original brief's.
    BriefPreset,
    /// The supplied policy has another format version.
    Version,
    /// The supplied policy's preset differs from the request.
    ResolvedPreset,
}

/// The preset a request resolves to, or why it is refused, from the brief's
/// preset, an explicit preset and the `(version, preset)` of a supplied
/// policy. `Ok(p)` means the policy of preset `p` is used: the supplied
/// one when given, else the preset's own.
pub open spec fn resolve_policy_of(
    brief: Option<PlaylistPreset>,
    preset: Option<PlaylistPreset>,
    supplied: Option<(u32, PlaylistPreset)>,
) -> Result<PlaylistPreset, PolicyMismatch> {
    if brief is Some && preset is Some && brief != preset {
        Err(PolicyMismatch::BriefPreset)
    } else {
        let expected = if brief is Some {
            brief
        } else {
            preset
        };
        let resolved = match supplied {
            Some(s) => s,
            None => (
                CURATION_POLICY_VERSION,
                match expected {
                    Some(p) => p,
                    None => PlaylistPreset::General,
                },
            ),
        };
        if resolved.0 != CURATION_POLICY_VERSION {
            Err(PolicyMismatch::Version)
        } else if expected is Some && expected != Some(resolved.1) {
            Err(PolicyMismatch::ResolvedPreset)
        } else {
            Ok(resolved.1)
        }
    }
}

/// Check a curation request's presets and policy version.
pub fn resolve_policy(
    brief: Option<PlaylistPreset>,
    preset: Option<PlaylistPreset>,
    supplied: Option<(u32, PlaylistPreset)>,
) -> (r: Result<PlaylistPreset, PolicyMismatch>)
    ensures
        r == resolve_policy_of(brief, preset, supplied),
{
    if let (Some(b), Some(p)) = (brief, preset) {
        if b != p {
            return Err(PolicyMismatch::BriefPreset);
        }
    }
    let expected = if brief.is_some() {
        brief
    } else {
        preset
    };
    let resolved = match supplied {
        Some(s) => s,
        None => (
            CURATION_POLICY_VERSION,
            match expected {
                Some(p) => p,
                None => PlaylistPreset::General,
            },
        ),
    };
    if resolved.0 != CURATION_POLICY_VERSION {
        return Err(PolicyMismatch::Version);
    }
    if let Some(e) = expected {
        if e != resolved.1 {
            return Err(PolicyMismatch::ResolvedPreset);
        }
    }
    Ok(resolved.1)
}

} // verus!
