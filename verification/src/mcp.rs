//! The MCP deployment beside a graph: the launch command an operator runs,
//! where the installed assets go, and when an install must refuse to touch
//! a file.

use vstd::prelude::*;

use crate::enrich::{join_path, join_path_chars};
use crate::error::SonagramError;
use crate::text::{chars_of, concat, string_of};

verus! {

/// Marker line the bundled curation contract carries.
pub const CURATION_CONTRACT_MARKER: &'static str = "sonagram-curation-contract:v1";

/// The env file the manifest pins, created beside it.
pub const ENV_FILE_NAME: &'static str = "sonagram_mcp.env";

/// The label of the launch line: PowerShell on Windows.
pub fn launch_label(windows: bool) -> (r: &'static str)
    ensures
        windows ==> r@ == seq!['R', 'U', 'N', ' ', '(', 'P', 'o', 'w', 'e', 'r', 'S', 'h', 'e', 'l', 'l', ')'],
        !windows ==> r@ == seq!['R', 'U', 'N'],
{
    if windows {
        let s = "RUN (PowerShell)";
        proof {
            reveal_strlit("RUN (PowerShell)");
        }
        s
    } else {
        let s = "RUN";
        proof {
            reveal_strlit("RUN");
        }
        s
    }
}

/// Each character of `s` replaced by its escape under `escape`.
pub open spec fn escaped(s: Seq<char>, escape: spec_fn(char) -> Seq<char>) -> Seq<char>
    decreases s.len(),
{
    if s.len() == 0 {
        Seq::empty()
    } else {
        escaped(s.drop_last(), escape) + escape(s.last())
    }
}

/// POSIX shell: a quote becomes `'\''`.
pub open spec fn posix_escape() -> spec_fn(char) -> Seq<char> {
    |c: char| if c == '\'' { seq!['\'', '\\', '\'', '\''] } else { seq![c] }
}

/// PowerShell: a backtick doubles and a double quote gets a backtick.
pub open spec fn powershell_escape() -> spec_fn(char) -> Seq<char> {
    |c: char| if c == '`' { seq!['`', '`'] } else if c == '"' { seq!['`', '"'] } else { seq![c] }
}

/// `value` quoted for the platform shell: single quotes on POSIX, double
/// quotes on Windows PowerShell.
pub open spec fn command_quote_of(value: Seq<char>, windows: bool) -> Seq<char> {
    if windows {
        seq!['"'] + escaped(value, powershell_escape()) + seq!['"']
    } else {
        seq!['\''] + escaped(value, posix_escape()) + seq!['\'']
    }
}

/// Quote `value` as one shell word.
pub fn command_quote(value: &str, windows: bool) -> (r: String)
    ensures
        r@ == command_quote_of(value@, windows),
{
    let v = chars_of(value);
    let q = if windows {
        '"'
    } else {
        '\''
    };
    let ghost esc = if windows {
        powershell_escape()
    } else {
        posix_escape()
    };
    let mut out: Vec<char> = Vec::new();
    out.push(q);
    let mut i: usize = 0;
    while i < v.len()
        invariant
            i <= v.len(),
            v@ == value@,
            esc == (if windows { powershell_escape() } else { posix_escape() }),
            out@ == seq![q] + escaped(v@.take(i as int), esc),
        decreases v.len() - i,
    {
        let c = v[i];
        let ghost before = out@;
        if windows && c == '`' {
            out.push('`');
            out.push('`');
        } else if windows && c == '"' {
            out.push('`');
            out.push('"');
        } else if !windows && c == '\'' {
            out.push('\'');
            out.push('\\');
            out.push('\'');
            out.push('\'');
        } else {
            out.push(c);
        }
        proof {
            assert(v@.take(i as int + 1).drop_last() =~= v@.take(i as int));
            assert(out@ =~= before + esc(c));
        }
        i += 1;
    }
    out.push(q);
    assert(v@.take(v.len() as int) =~= v@);
    string_of(&out)
}

/// The command that starts the server on a graph:
/// `<binary> --graph <graph>`, both quoted, with PowerShell's `& ` in front
/// on Windows.
pub open spec fn launch_command_of(binary: Seq<char>, graph: Seq<char>, windows: bool) -> Seq<char> {
    let flag = seq![' ', '-', '-', 'g', 'r', 'a', 'p', 'h', ' '];
    let body = command_quote_of(binary, windows) + flag + command_quote_of(graph, windows);
    if windows {
        seq!['&', ' '] + body
    } else {
        body
    }
}

/// The launch command for a server binary and graph.
pub fn launch_command(binary: &str, graph: &str, windows: bool) -> (r: String)
    ensures
        r@ == launch_command_of(binary@, graph@, windows),
{
    let b = chars_of(command_quote(binary, windows).as_str());
    let g = chars_of(command_quote(graph, windows).as_str());
    let flag = vec![' ', '-', '-', 'g', 'r', 'a', 'p', 'h', ' '];
    assert(flag@ =~= seq![' ', '-', '-', 'g', 'r', 'a', 'p', 'h', ' ']);
    let body = concat(&concat(&b, &flag), &g);
    if windows {
        let amp = vec!['&', ' '];
        assert(amp@ =~= seq!['&', ' ']);
        string_of(&concat(&amp, &body))
    } else {
        string_of(&body)
    }
}

/// What an install did.
#[derive(Debug, Clone, PartialEq, Eq)]
pub struct InstallReport {
    pub graph_path: String,
    pub manifest_path: String,
    pub skills_dir: String,
    pub public_source_dir: String,
    /// The operator-owned env file the manifest pins.
    pub env_path: String,
    /// This install created the env file.
    pub env_created: bool,
    pub server_binary: Option<String>,
    /// Managed assets rewritten by this install.
    pub written: usize,
    /// Managed assets already identical to the bundled ones.
    pub unchanged: usize,
    /// The install ran for Windows.
    pub windows: bool,
}

impl InstallReport {
    /// The launch command, when a server binary was found.
    pub fn launch_command(&self) -> (r: Option<String>)
        ensures
            match self.server_binary {
                Some(b) => r is Some && r->Some_0@ == launch_command_of(b@, self.graph_path@, self.windows),
                None => r is None,
            },
    {
        match &self.server_binary {
            Some(b) => Some(launch_command(b.as_str(), self.graph_path.as_str(), self.windows)),
            None => None,
        }
    }
}

/// The paths an install uses beside a graph whose directory is `parent` and
/// whose file stem is `stem`.
pub open spec fn install_paths_of(parent: Seq<char>, stem: Seq<char>) -> (Seq<char>, Seq<char>, Seq<char>, Seq<char>) {
    (
        join_path(parent, stem + seq!['_', 'm', 'c', 'p', '.', 'y', 'a', 'm', 'l']),
        join_path(parent, stem + seq!['_', 'm', 'c', 'p', '.', 's', 'k', 'i', 'l', 'l', 's']),
        join_path(
            parent,
            seq!['.', 's', 'o', 'n', 'a', 'g', 'r', 'a', 'm', '-', 'm', 'c', 'p', '-', 'p', 'u', 'b', 'l', 'i', 'c'],
        ),
        join_path(
            parent,
            seq!['s', 'o', 'n', 'a', 'g', 'r', 'a', 'm', '_', 'm', 'c', 'p', '.', 'e', 'n', 'v'],
        ),
    )
}

/// The manifest path, skills dir, public source dir and env file of an
/// install.
pub fn install_paths(parent: &str, stem: &str) -> (r: (String, String, String, String))
    ensures
        (r.0@, r.1@, r.2@, r.3@) == install_paths_of(parent@, stem@),
{
    let p = chars_of(parent);
    let s = chars_of(stem);
    let m = vec!['_', 'm', 'c', 'p', '.', 'y', 'a', 'm', 'l'];
    let k = vec!['_', 'm', 'c', 'p', '.', 's', 'k', 'i', 'l', 'l', 's'];
    let pb = vec!['.', 's', 'o', 'n', 'a', 'g', 'r', 'a', 'm', '-', 'm', 'c', 'p', '-', 'p', 'u', 'b', 'l', 'i', 'c'];
    let e = vec!['s', 'o', 'n', 'a', 'g', 'r', 'a', 'm', '_', 'm', 'c', 'p', '.', 'e', 'n', 'v'];
    proof {
        assert(m@ =~= seq!['_', 'm', 'c', 'p', '.', 'y', 'a', 'm', 'l']);
        assert(k@ =~= seq!['_', 'm', 'c', 'p', '.', 's', 'k', 'i', 'l', 'l', 's']);
        assert(pb@ =~= seq!['.', 's', 'o', 'n', 'a', 'g', 'r', 'a', 'm', '-', 'm', 'c', 'p', '-', 'p', 'u', 'b', 'l', 'i', 'c']);
        assert(e@ =~= seq!['s', 'o', 'n', 'a', 'g', 'r', 'a', 'm', '_', 'm', 'c', 'p', '.', 'e', 'n', 'v']);
    }
    (
        string_of(&join_path_chars(&p, &concat(&s, &m))),
        string_of(&join_path_chars(&p, &concat(&s, &k))),
        string_of(&join_path_chars(&p, &pb)),
        string_of(&join_path_chars(&p, &e)),
    )
}

/// The state of one managed asset on disk before an install.
#[derive(Debug, Clone, Copy, PartialEq, Eq, Structural)]
pub enum AssetState {
    /// No file at the asset's path.
    Missing,
    /// A file identical to the bundled asset.
    Identical,
    /// A file that differs from the bundled asset.
    Different,
    /// A symbolic link.
    Symlink,
}

/// An install stops at this asset: a symbolic link is always refused, a
/// differing file unless `force`.
pub open spec fn refused(s: AssetState, force: bool) -> bool {
    s == AssetState::Symlink || (!force && s == AssetState::Different)
}

/// The first asset that stops the install, if any.
pub open spec fn first_refused(states: Seq<AssetState>, force: bool) -> Option<int> {
    if exists|i: int| 0 <= i < states.len() && refused(#[trigger] states[i], force) {
        Some(
            choose|i: int|
                0 <= i < states.len() && refused(states[i], force) && forall|j: int|
                    0 <= j < i ==> !refused(#[trigger] states[j], force),
        )
    } else {
        None
    }
}

/// How many assets are in the given state.
pub open spec fn count_state(states: Seq<AssetState>, s: AssetState) -> nat
    decreases states.len(),
{
    if states.len() == 0 {
        0
    } else {
        count_state(states.drop_last(), s) + if states.last() == s {
            1nat
        } else {
            0nat
        }
    }
}

/// The detail of the refusal to overwrite a differing asset.
pub open spec fn differs_detail(path: Seq<char>) -> Seq<char> {
    path + seq![
        ' ', 'd', 'i', 'f', 'f', 'e', 'r', 's', ' ', 'f', 'r', 'o', 'm', ' ', 'S', 'o', 'n', 'a',
        'g', 'r', 'a', 'm', '\'', 's', ' ', 'b', 'u', 'n', 'd', 'l', 'e', 'd', ' ', 'M', 'C', 'P',
        ' ', 'a', 's', 's', 'e', 't', ' ', '—', ' ', 'p', 'a', 's', 's', ' ', '-', '-', 'f', 'o',
        'r', 'c', 'e', ' ', 't', 'o', ' ', 'r', 'e', 'p', 'l', 'a', 'c', 'e', ' ', 'i', 't'
    ]
}

/// The detail of the refusal of a symlinked asset path.
pub open spec fn symlink_detail(path: Seq<char>) -> Seq<char> {
    "refusing symlinked MCP asset path "@ + path
}

/// Decide an install from the state of each managed asset, in order: the
/// first symbolic link is refused, and without `force` so is the first
/// differing asset, whichever comes first; otherwise every asset not already
/// identical is written. Returns `(written, unchanged)`.
pub fn plan_install(paths: &Vec<String>, states: &Vec<AssetState>, force: bool) -> (r: Result<(usize, usize), SonagramError>)
    requires
        paths.len() == states.len(),
    ensures
        match r {
            Ok((written, unchanged)) => {
                &&& first_refused(states@, force) is None
                &&& unchanged == count_state(states@, AssetState::Identical)
                &&& written + unchanged == states.len()
            },
            Err(e) => {
                let i = first_refused(states@, force)->Some_0;
                &&& first_refused(states@, force) is Some
                &&& e is Config
                &&& e.detail() == if states@[i] == AssetState::Symlink {
                    symlink_detail(paths@[i]@)
                } else {
                    differs_detail(paths@[i]@)
                }
            },
        },
{
    let mut i: usize = 0;
    while i < states.len()
        invariant
            i <= states.len(),
            paths.len() == states.len(),
            forall|j: int| 0 <= j < i ==> !refused(#[trigger] states@[j], force),
        decreases states.len() - i,
    {
        let st = states[i];
        if st == AssetState::Symlink || (!force && st == AssetState::Different) {
            proof {
                let f = first_refused(states@, force);
                assert(refused(states@[i as int], force));
                let c = f->Some_0;
                if c < i {
                    assert(!refused(states@[c], force));
                }
                if i < c {
                    assert(!refused(states@[i as int], force));
                }
            }
            if st == AssetState::Symlink {
                let head = "refusing symlinked MCP asset path ";
                proof {
                    reveal_strlit("refusing symlinked MCP asset path ");
                }
                let msg = concat(&chars_of(head), &chars_of(paths[i].as_str()));
                return Err(SonagramError::Config(string_of(&msg)));
            }
            let tail = " differs from Sonagram's bundled MCP asset — pass --force to replace it";
            proof {
                reveal_strlit(" differs from Sonagram's bundled MCP asset — pass --force to replace it");
            }
            let msg = concat(&chars_of(paths[i].as_str()), &chars_of(tail));
            proof {
                assert(msg@ =~= differs_detail(paths@[i as int]@));
            }
            return Err(SonagramError::Config(string_of(&msg)));
        }
        i += 1;
    }
    assert(first_refused(states@, force) is None);
    let mut unchanged: usize = 0;
    let mut k: usize = 0;
    while k < states.len()
        invariant
            k <= states.len(),
            unchanged == count_state(states@.take(k as int), AssetState::Identical),
            unchanged <= k,
        decreases states.len() - k,
    {
        assert(states@.take(k as int + 1).drop_last() =~= states@.take(k as int));
        if states[k] == AssetState::Identical {
            unchanged += 1;
        }
        k += 1;
    }
    assert(states@.take(states.len() as int) =~= states@);
    Ok((states.len() - unchanged, unchanged))
}


/// Installing again over assets that are all identical to the bundled ones
/// is refused nowhere and counts every asset unchanged, so by
/// [`plan_install`] it writes nothing, with or without `force`.
pub proof fn law_reinstall_writes_nothing(states: Seq<AssetState>, force: bool)
    requires
        forall|i: int| 0 <= i < states.len() ==> #[trigger] states[i] == AssetState::Identical,
    ensures
        first_refused(states, force) is None,
        count_state(states, AssetState::Identical) == states.len(),
    decreases states.len(),
{
    if states.len() > 0 {
        law_reinstall_writes_nothing(states.drop_last(), force);
        assert(states.last() == states[states.len() - 1]);
    }
    assert(!(exists|i: int| 0 <= i < states.len() && refused(#[trigger] states[i], force)));
}

} // verus!
