//! The user config and its source registry: where the sonagram home is, the
//! default graph and playlist locations under it, and the sorted set of
//! registered source directories.
//!
//! Reading the environment, canonicalizing paths and the JSON file itself are
//! done by the caller; the library decides what they mean.

use vstd::prelude::*;

use crate::enrich::{join_path, join_path_chars};
use crate::error::SonagramError;
use crate::order::{lemma_lex_order_total, lex_order, sort_strings};
use vstd::relations::sorted_by;
use crate::playlist::contains_chars;
use crate::text::{chars_eq, chars_of, string_of, trim, trim_ws};

verus! {

/// Current config-format version.
pub const CONFIG_VERSION: u32 = 1;

/// `".sonagram"`.
pub open spec fn dot_sonagram() -> Seq<char> {
    seq!['.', 's', 'o', 'n', 'a', 'g', 'r', 'a', 'm']
}

/// The sonagram home: the trimmed `SONAGRAM_HOME` when it is set and not
/// blank, else `HOME` joined with `.sonagram`; `None` when neither resolves.
pub open spec fn sonagram_home_of(sonagram_home_var: Option<Seq<char>>, home_var: Option<Seq<char>>) -> Option<Seq<char>> {
    match sonagram_home_var {
        Some(h) if trim(h).len() > 0 => Some(trim(h)),
        _ => match home_var {
            Some(home) => Some(join_path(home, dot_sonagram())),
            None => None,
        },
    }
}

/// The detail of the error when no home directory can be resolved.
pub open spec fn no_home_detail() -> Seq<char> {
    seq![
        'c', 'a', 'n', 'n', 'o', 't', ' ', 'r', 'e', 's', 'o', 'l', 'v', 'e', ' ', 't', 'h', 'e',
        ' ', 's', 'o', 'n', 'a', 'g', 'r', 'a', 'm', ' ', 'h', 'o', 'm', 'e', ' ', 'd', 'i', 'r',
        ':', ' ', 'n', 'e', 'i', 't', 'h', 'e', 'r', ' ', 'S', 'O', 'N', 'A', 'G', 'R', 'A', 'M',
        '_', 'H', 'O', 'M', 'E', ' ', 'n', 'o', 'r', ' ', 'H', 'O', 'M', 'E', ' ', 'i', 's', ' ',
        's', 'e', 't'
    ]
}

/// The option's text as plain values.
pub open spec fn opt_text(v: Option<&str>) -> Option<Seq<char>> {
    match v {
        Some(s) => Some(s@),
        None => None,
    }
}

/// Resolve the sonagram home from the `SONAGRAM_HOME` and `HOME` variables
/// (`None` for an unset variable).
pub fn sonagram_home(sonagram_home_var: Option<&str>, home_var: Option<&str>) -> (r: Result<String, SonagramError>)
    ensures
        match sonagram_home_of(opt_text(sonagram_home_var), opt_text(home_var)) {
            Some(h) => r is Ok && r->Ok_0@ == h,
            None => r is Err && r->Err_0 is Config && r->Err_0.detail() == no_home_detail(),
        },
{
    if let Some(h) = sonagram_home_var {
        let t = trim_ws(&chars_of(h));
        if t.len() > 0 {
            return Ok(string_of(&t));
        }
    }
    match home_var {
        Some(home) => {
            let d = vec!['.', 's', 'o', 'n', 'a', 'g', 'r', 'a', 'm'];
            assert(d@ =~= dot_sonagram());
            Ok(string_of(&join_path_chars(&chars_of(home), &d)))
        },
        None => {
            let msg = "cannot resolve the sonagram home dir: neither SONAGRAM_HOME nor HOME is set";
            proof {
                reveal_strlit("cannot resolve the sonagram home dir: neither SONAGRAM_HOME nor HOME is set");
                assert(msg@ =~= no_home_detail());
            }
            Err(SonagramError::Config(string_of(&chars_of(msg))))
        },
    }
}

/// `<home>/<name>`.
fn under_home(home: &str, name: &str) -> (r: String)
    ensures
        r@ == join_path(home@, name@),
{
    string_of(&join_path_chars(&chars_of(home), &chars_of(name)))
}

/// `"config.json"`.
pub open spec fn config_file_name() -> Seq<char> {
    seq!['c', 'o', 'n', 'f', 'i', 'g', '.', 'j', 's', 'o', 'n']
}

/// `"music.kgl"`.
pub open spec fn default_graph_name() -> Seq<char> {
    seq!['m', 'u', 's', 'i', 'c', '.', 'k', 'g', 'l']
}

/// `"playlists"`.
pub open spec fn default_playlists_name() -> Seq<char> {
    seq!['p', 'l', 'a', 'y', 'l', 'i', 's', 't', 's']
}

/// Path of the config file under the sonagram home.
pub fn config_path(home: &str) -> (r: String)
    ensures
        r@ == join_path(home@, config_file_name()),
{
    proof {
        reveal_strlit("config.json");
    }
    under_home(home, "config.json")
}

/// The user config and source registry.
#[derive(Debug, Clone, PartialEq, Eq)]
pub struct Config {
    /// On-disk format version.
    pub config_version: u32,
    /// Registered source directories, absolute, canonicalized and sorted.
    pub sources: Vec<String>,
    /// Explicit graph path; `None` means `<home>/music.kgl`.
    pub graph: Option<String>,
    /// Explicit playlist-store dir; `None` means `<home>/playlists`.
    pub playlists_dir: Option<String>,
}

/// The entries of `s` that match neither `raw` nor `canon`, in order.
pub open spec fn kept_sources(s: Seq<Seq<char>>, raw: Seq<char>, canon: Option<Seq<char>>) -> Seq<Seq<char>>
    decreases s.len(),
{
    if s.len() == 0 {
        Seq::empty()
    } else {
        let prev = kept_sources(s.drop_last(), raw, canon);
        if s.last() == raw || canon == Some(s.last()) {
            prev
        } else {
            prev.push(s.last())
        }
    }
}

impl Config {
    /// A fresh, empty config at the current version.
    pub fn new() -> (c: Self)
        ensures
            c.config_version == CONFIG_VERSION,
            c.sources@.len() == 0,
            c.graph is None,
            c.playlists_dir is None,
    {
        Config { config_version: CONFIG_VERSION, sources: Vec::new(), graph: None, playlists_dir: None }
    }

    /// The graph path: the explicit one when set, else `<home>/music.kgl`.
    pub fn resolved_graph(&self, home: &str) -> (r: String)
        ensures
            r@ == match self.graph {
                Some(g) => g@,
                None => join_path(home@, default_graph_name()),
            },
    {
        match &self.graph {
            Some(g) => g.clone(),
            None => {
                proof {
                    reveal_strlit("music.kgl");
                }
                under_home(home, "music.kgl")
            },
        }
    }

    /// The playlist-store dir: the explicit one when set, else
    /// `<home>/playlists`.
    pub fn resolved_playlists_dir(&self, home: &str) -> (r: String)
        ensures
            r@ == match self.playlists_dir {
                Some(p) => p@,
                None => join_path(home@, default_playlists_name()),
            },
    {
        match &self.playlists_dir {
            Some(p) => p.clone(),
            None => {
                proof {
                    reveal_strlit("playlists");
                }
                under_home(home, "playlists")
            },
        }
    }

    /// Register an already-canonicalized source directory: when it is not yet
    /// present, add it and re-sort the registry. Returns whether it was added.
    pub fn register_source(&mut self, canonical: &str) -> (added: bool)
        ensures
            added == !old(self).sources.deep_view().contains(canonical@),
            final(self).sources.deep_view() == registered(old(self).sources.deep_view(), canonical@),
            final(self).config_version == old(self).config_version,
            final(self).graph == old(self).graph,
            final(self).playlists_dir == old(self).playlists_dir,
    {
        let c = chars_of(canonical);
        if contains_chars(&self.sources, &c) {
            return false;
        }
        let ghost before = self.sources.deep_view();
        self.sources.push(string_of(&c));
        assert(self.sources.deep_view() =~= before.push(canonical@));
        self.sources = sort_strings(&self.sources);
        true
    }

    /// Unregister a source directory, matching either the raw path as given
    /// or its canonical form (when it still resolves). Returns whether any
    /// entry was removed.
    pub fn unregister_source(&mut self, raw: &str, canonical: Option<&str>) -> (removed: bool)
        ensures
            final(self).sources.deep_view() == kept_sources(
                old(self).sources.deep_view(),
                raw@,
                opt_text(canonical),
            ),
            removed == (final(self).sources.len() != old(self).sources.len()),
            final(self).config_version == old(self).config_version,
            final(self).graph == old(self).graph,
            final(self).playlists_dir == old(self).playlists_dir,
    {
        let ghost s = self.sources.deep_view();
        let r = chars_of(raw);
        let canon = match canonical {
            Some(c) => Some(chars_of(c)),
            None => None,
        };
        let mut kept: Vec<String> = Vec::new();
        let mut i: usize = 0;
        while i < self.sources.len()
            invariant
                i <= self.sources.len(),
                s == self.sources.deep_view(),
                r@ == raw@,
                match canon {
                    Some(c) => canonical is Some && c@ == canonical.unwrap()@,
                    None => canonical is None,
                },
                kept.deep_view() == kept_sources(s.take(i as int), raw@, opt_text(canonical)),
            decreases self.sources.len() - i,
        {
            let x = chars_of(self.sources[i].as_str());
            assert(s.take(i as int + 1).drop_last() =~= s.take(i as int));
            let matches_canon = match &canon {
                Some(c) => chars_eq(&x, c),
                None => false,
            };
            if !chars_eq(&x, &r) && !matches_canon {
                let ghost k0 = kept.deep_view();
                kept.push(self.sources[i].clone());
                assert(kept.deep_view() =~= k0.push(s[i as int]));
            }
            i += 1;
        }
        assert(s.take(self.sources.len() as int) =~= s);
        let before = self.sources.len();
        self.sources = kept;
        self.sources.len() != before
    }
}

/// The registry after registering `c`: unchanged when `c` is present, else
/// `c` added and the whole registry sorted.
pub open spec fn registered(s: Seq<Seq<char>>, c: Seq<char>) -> Seq<Seq<char>> {
    if s.contains(c) {
        s
    } else {
        s.push(c).sort_by(lex_order())
    }
}

proof fn lemma_registered_facts(s: Seq<Seq<char>>, c: Seq<char>)
    ensures
        !s.contains(c) ==> registered(s, c).to_multiset() == s.to_multiset().insert(c),
        !s.contains(c) ==> sorted_by(registered(s, c), lex_order()),
        forall|y: Seq<char>| #[trigger] registered(s, c).contains(y) <==> (s.contains(y) || y == c),
{
    broadcast use vstd::seq_lib::group_to_multiset_ensures;

    lemma_lex_order_total();
    if !s.contains(c) {
        s.push(c).lemma_sort_by_ensures(lex_order());
        assert forall|y: Seq<char>| #[trigger] registered(s, c).contains(y) <==> (s.contains(y) || y
            == c) by {
            let t = registered(s, c);
            assert(t.to_multiset().count(y) == s.push(c).to_multiset().count(y));
            if s.contains(y) {
                let k = choose|k: int| 0 <= k < s.len() && s[k] == y;
                assert(s.push(c)[k] == y);
            }
            if y == c {
                assert(s.push(c)[s.len() as int] == c);
            }
            if s.push(c).contains(y) {
                let k = choose|k: int| 0 <= k < s.len() + 1 && s.push(c)[k] == y;
                if k < s.len() {
                    assert(s[k] == y);
                }
            }
        }
    }
}

/// Registering two sources gives the same registry in either order.
pub proof fn law_registration_order_independent(s: Seq<Seq<char>>, a: Seq<char>, b: Seq<char>)
    ensures
        registered(registered(s, a), b) == registered(registered(s, b), a),
{
    broadcast use vstd::seq_lib::group_to_multiset_ensures;

    lemma_lex_order_total();
    lemma_registered_facts(s, a);
    lemma_registered_facts(s, b);
    let sa = registered(s, a);
    let sb = registered(s, b);
    lemma_registered_facts(sa, b);
    lemma_registered_facts(sb, a);
    if !s.contains(a) && !s.contains(b) && a != b {
        let l = registered(sa, b);
        let r = registered(sb, a);
        assert(!sa.contains(b));
        assert(!sb.contains(a));
        assert(l.to_multiset() =~= r.to_multiset());
        vstd::seq_lib::lemma_sorted_unique(l, r, lex_order());
    }
}

/// Registering a source leaves it present, keeps every earlier source, and
/// leaves the registry sorted whenever it changed.
pub proof fn law_registration_keeps_sorted_superset(s: Seq<Seq<char>>, c: Seq<char>)
    ensures
        registered(s, c).contains(c),
        forall|x: Seq<char>| s.contains(x) ==> #[trigger] registered(s, c).contains(x),
        !s.contains(c) ==> sorted_by(registered(s, c), lex_order()),
        sorted_by(s, lex_order()) ==> sorted_by(registered(s, c), lex_order()),
{
    lemma_registered_facts(s, c);
}


proof fn lemma_kept_count(t: Seq<Seq<char>>, raw: Seq<char>, canon: Option<Seq<char>>, y: Seq<char>)
    ensures
        kept_sources(t, raw, canon).to_multiset().count(y) == (if y == raw || canon == Some(y) {
            0
        } else {
            t.to_multiset().count(y)
        }),
    decreases t.len(),
{
    broadcast use vstd::seq_lib::group_to_multiset_ensures;

    if t.len() > 0 {
        lemma_kept_count(t.drop_last(), raw, canon, y);
        assert(t =~= t.drop_last().push(t.last()));
    }
}

proof fn lemma_kept_sorted(t: Seq<Seq<char>>, raw: Seq<char>, canon: Option<Seq<char>>)
    requires
        sorted_by(t, lex_order()),
    ensures
        sorted_by(kept_sources(t, raw, canon), lex_order()),
        forall|x: Seq<char>| #[trigger] kept_sources(t, raw, canon).contains(x) ==> t.contains(x),
    decreases t.len(),
{
    if t.len() > 0 {
        let p = t.drop_last();
        assert(sorted_by(p, lex_order()));
        lemma_kept_sorted(p, raw, canon);
        let kp = kept_sources(p, raw, canon);
        let k = kept_sources(t, raw, canon);
        assert forall|x: Seq<char>| #[trigger] k.contains(x) implies t.contains(x) by {
            if kp.contains(x) {
                let i = choose|i: int| 0 <= i < p.len() && p[i] == x;
                assert(t[i] == x);
            } else {
                assert(x == t.last());
                assert(t[t.len() - 1] == x);
            }
        }
        if k != kp {
            assert(k == kp.push(t.last()));
            assert forall|i: int, j: int| 0 <= i < j < k.len() implies #[trigger] (lex_order())(k[i], k[j]) by {
                if j < kp.len() {
                    assert(k[i] == kp[i] && k[j] == kp[j]);
                } else {
                    assert(kp.contains(k[i]));
                    let m = choose|m: int| 0 <= m < p.len() && p[m] == k[i];
                    assert(t[m] == k[i]);
                    assert(k[j] == t[t.len() - 1]);
                }
            }
        }
    }
}

/// Registering a source that was not registered, then unregistering it (by
/// its path, and by its canonical form when that resolves to the same path),
/// gives back the sorted registry it started from.
pub proof fn law_register_then_unregister_restores(s: Seq<Seq<char>>, c: Seq<char>, canon: Option<Seq<char>>)
    requires
        sorted_by(s, lex_order()),
        !s.contains(c),
        canon is None || canon == Some(c),
    ensures
        kept_sources(registered(s, c), c, canon) == s,
{
    broadcast use vstd::seq_lib::group_to_multiset_ensures;

    lemma_lex_order_total();
    lemma_registered_facts(s, c);
    let t = registered(s, c);
    let k = kept_sources(t, c, canon);
    lemma_kept_sorted(t, c, canon);
    assert forall|y: Seq<char>| k.to_multiset().count(y) == s.to_multiset().count(y) by {
        lemma_kept_count(t, c, canon, y);
    }
    assert(k.to_multiset() =~= s.to_multiset());
    vstd::seq_lib::lemma_sorted_unique(k, s, lex_order());
}

} // verus!
