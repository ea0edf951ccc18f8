//! Turning the answer of a read-only graph query into Track ids: which
//! column carries the id, and the id of each row. The query runs in kglite;
//! the values of its answer are described to the rules by what they read of
//! them.

use vstd::prelude::*;

use crate::error::SonagramError;
use crate::text::{ascii_lower_seq, ascii_lowercase, chars_eq, chars_of, concat, decimal, decimal_chars, string_of};

verus! {

/// What the id rules read of one value of a query answer.
pub enum Cell {
    /// A node, with its `content_hash` property when that is a string.
    Node(Option<String>),
    /// A string.
    Text(String),
    /// Anything else.
    Other,
}

/// The id a value carries: a node's content hash, or the string itself.
pub open spec fn cell_id(c: Cell) -> Option<Seq<char>> {
    match c {
        Cell::Node(h) => match h {
            Some(s) => Some(s@),
            None => None,
        },
        Cell::Text(s) => Some(s@),
        Cell::Other => None,
    }
}

/// A column name marks the id: `content_hash` or `id`, bare or qualified
/// (`t.content_hash`), case-insensitively.
pub open spec fn names_id(name: Seq<char>) -> bool {
    let n = ascii_lower_seq(name);
    n == "content_hash"@ || n == "id"@ || ".content_hash"@.is_suffix_of(n) || ".id"@.is_suffix_of(n)
}

/// A first-row value shows its column carries Track ids: a node with a
/// content hash, or a string that names an existing Track.
pub open spec fn shows_track(c: Cell, resolves: bool) -> bool {
    match c {
        Cell::Node(h) => h is Some,
        Cell::Text(_) => resolves,
        Cell::Other => false,
    }
}

/// The id column: the first column named for the id, else the first whose
/// first-row value shows a Track.
pub open spec fn id_column(names: Seq<Seq<char>>, first_row: Seq<Cell>, resolves: Seq<bool>) -> Option<int> {
    if exists|i: int| 0 <= i < names.len() && names_id(#[trigger] names[i]) {
        Some(choose|i: int| 0 <= i < names.len() && names_id(names[i]) && forall|j: int| 0 <= j < i ==> !names_id(#[trigger] names[j]))
    } else if exists|i: int| 0 <= i < first_row.len() && i < resolves.len() && shows_track(#[trigger] first_row[i], resolves[i]) {
        Some(choose|i: int| 0 <= i < first_row.len() && i < resolves.len() && shows_track(first_row[i], resolves[i]) && forall|j: int|
            0 <= j < i ==> !shows_track(#[trigger] first_row[j], resolves[j]))
    } else {
        None
    }
}

fn ends_with(s: &[char], suffix: &[char]) -> (r: bool)
    ensures
        r == suffix@.is_suffix_of(s@),
{
    if suffix.len() > s.len() {
        return false;
    }
    let off = s.len() - suffix.len();
    let mut i: usize = 0;
    while i < suffix.len()
        invariant
            i <= suffix.len(),
            off + suffix.len() == s.len(),
            forall|k: int| 0 <= k < i ==> suffix@[k] == s@[off + k],
        decreases suffix.len() - i,
    {
        if suffix[i] != s[off + i] {
            return false;
        }
        i += 1;
    }
    assert(s@.subrange(off as int, s@.len() as int) =~= suffix@);
    true
}

fn names_id_exec(name: &str) -> (r: bool)
    ensures
        r == names_id(name@),
{
    let n = ascii_lowercase(&chars_of(name));
    chars_eq(&n, &chars_of("content_hash")) || chars_eq(&n, &chars_of("id")) || ends_with(&n, &chars_of(".content_hash"))
        || ends_with(&n, &chars_of(".id"))
}

/// The column of a query answer that carries the Track ids (see
/// [`id_column`]); `resolves[i]` tells whether the first-row value of column
/// `i`, when a string, names an existing Track.
pub fn choose_id_column(names: &Vec<String>, first_row: &Vec<Cell>, resolves: &Vec<bool>) -> (r: Option<usize>)
    ensures
        match r {
            Some(c) => id_column(names.deep_view(), first_row@, resolves@) == Some(c as int),
            None => id_column(names.deep_view(), first_row@, resolves@) is None,
        },
{
    let ghost nv = names.deep_view();
    let mut i: usize = 0;
    while i < names.len()
        invariant
            i <= names.len(),
            nv == names.deep_view(),
            forall|j: int| 0 <= j < i ==> !names_id(#[trigger] nv[j]),
        decreases names.len() - i,
    {
        assert(nv[i as int] == names@[i as int]@);
        if names_id_exec(names[i].as_str()) {
            proof {
                let c = choose|x: int| 0 <= x < nv.len() && names_id(nv[x]) && forall|j: int| 0 <= j < x ==> !names_id(#[trigger] nv[j]);
                assert(c == i) by {
                    if c < i {
                        assert(!names_id(nv[c]));
                    } else if c > i {
                        assert(!names_id(nv[i as int]));
                    }
                }
            }
            return Some(i);
        }
        i += 1;
    }
    let mut k: usize = 0;
    while k < first_row.len() && k < resolves.len()
        invariant
            k <= first_row.len(),
            nv == names.deep_view(),
            forall|j: int| 0 <= j < names.len() ==> !names_id(#[trigger] nv[j]),
            forall|j: int| 0 <= j < k && j < resolves.len() ==> !shows_track(#[trigger] first_row@[j], resolves@[j]),
        decreases first_row.len() - k,
    {
        let shows = match &first_row[k] {
            Cell::Node(h) => h.is_some(),
            Cell::Text(_) => resolves[k],
            Cell::Other => false,
        };
        if shows {
            proof {
                let c = choose|x: int| 0 <= x < first_row@.len() && x < resolves@.len() && shows_track(first_row@[x], resolves@[x]) && forall|j: int|
                    0 <= j < x ==> !shows_track(#[trigger] first_row@[j], resolves@[j]);
                assert(c == k) by {
                    if c < k {
                        assert(!shows_track(first_row@[c], resolves@[c]));
                    } else if c > k {
                        assert(!shows_track(first_row@[k as int], resolves@[k as int]));
                    }
                }
            }
            return Some(k);
        }
        k += 1;
    }
    None
}

/// The refusal of a row without an id in the id column.
pub open spec fn row_without_id_detail(row: nat, column: Seq<char>) -> Seq<char> {
    "Cypher result row "@ + decimal(row) + " has no Track id in the '"@ + column
        + "' column (expected a Track node or a content-hash string)"@
}

/// A name for what `format!("{:?}", v)` gives for a list of strings: the
/// `Debug` rendering, such as `["a", "b"]`, with Rust's string escapes.
pub uninterp spec fn debug_strings(v: Seq<Seq<char>>) -> Seq<char>;

/// `format!("{:?}", v)`: the `Debug` rendering of the list, which depends on
/// the list alone.
#[verifier::external_body]
fn debug_list(v: &Vec<String>) -> (r: String)
    ensures
        r@ == debug_strings(v.deep_view()),
{
    format!("{:?}", v)
}

/// The refusal of an answer in which no column carries Track ids.
pub open spec fn no_id_column_detail(names: Seq<Seq<char>>) -> Seq<char> {
    "no Track id column in Cypher result (columns: "@ + debug_strings(names)
        + "); RETURN a Track node (e.g. `RETURN t`) or its `t.content_hash`"@
}

/// `r` is what the answer with column `names`, `rows` and first-row flags
/// `resolves` gives: no ids for an empty answer; else the id of each row in
/// the id column (see [`id_column`]), or the refusal when there is no id
/// column, or the refusal of the first row without an id.
pub open spec fn extracted(
    names: Seq<Seq<char>>,
    rows: Seq<Vec<Cell>>,
    resolves: Seq<bool>,
    r: Result<Vec<String>, SonagramError>,
) -> bool {
    &&& rows.len() == 0 ==> r is Ok && r->Ok_0@.len() == 0
    &&& rows.len() > 0 ==> match id_column(names, rows[0]@, resolves) {
        None => r is Err && r->Err_0 is Playlist && r->Err_0.detail() == no_id_column_detail(names),
        Some(col) => {
            let bad = exists|i: int| 0 <= i < rows.len() && cell_opt_id(rows[i]@, col) is None;
            &&& !bad ==> r is Ok && r->Ok_0.len() == rows.len() && forall|i: int|
                0 <= i < rows.len() ==> Some(#[trigger] r->Ok_0@[i]@) == cell_opt_id(rows[i]@, col)
            &&& bad ==> r is Err && (r->Err_0 matches e && e is Playlist && exists|i: int|
                0 <= i < rows.len() && cell_opt_id(rows[i]@, col) is None && (forall|j: int|
                    0 <= j < i ==> cell_opt_id(#[trigger] rows[j]@, col) is Some) && e.detail()
                    == row_without_id_detail(i as nat, if col < names.len() {
                    names[col]
                } else {
                    "?"@
                }))
        },
    }
}

/// The ids of a query answer, in row order (see [`extracted`]).
pub fn extract_track_ids(
    names: &Vec<String>,
    rows: &Vec<Vec<Cell>>,
    first_row_resolves: &Vec<bool>,
) -> (r: Result<Vec<String>, SonagramError>)
    ensures
        extracted(names.deep_view(), rows@, first_row_resolves@, r),
{
    if rows.len() == 0 {
        return Ok(Vec::new());
    }
    let col = match choose_id_column(names, &rows[0], first_row_resolves) {
        Some(c) => c,
        None => {
            let msg = concat(
                &concat(
                    &chars_of("no Track id column in Cypher result (columns: "),
                    &chars_of(debug_list(names).as_str()),
                ),
                &chars_of("); RETURN a Track node (e.g. `RETURN t`) or its `t.content_hash`"),
            );
            return Err(SonagramError::Playlist(string_of(&msg)));
        },
    };
    assert(rows[0]@ == rows@[0]@);
    let mut ids: Vec<String> = Vec::new();
    let mut i: usize = 0;
    while i < rows.len()
        invariant
            i <= rows.len(),
            rows.len() > 0,
            id_column(names.deep_view(), rows@[0]@, first_row_resolves@) == Some(col as int),
            ids.len() == i,
            forall|j: int| 0 <= j < i ==> Some(#[trigger] ids@[j]@) == cell_opt_id(rows@[j]@, col as int),
        decreases rows.len() - i,
    {
        let id = if col < rows[i].len() {
            match &rows[i][col] {
                Cell::Node(h) => match h {
                    Some(s) => Some(string_of(&chars_of(s.as_str()))),
                    None => None,
                },
                Cell::Text(s) => Some(string_of(&chars_of(s.as_str()))),
                Cell::Other => None,
            }
        } else {
            None
        };
        assert(rows@[i as int]@ == rows[i as int]@);
        assert(match id {
            Some(x) => cell_opt_id(rows@[i as int]@, col as int) == Some(x@),
            None => cell_opt_id(rows@[i as int]@, col as int) is None,
        });
        match id {
            Some(s) => ids.push(s),
            None => {
                let column = if col < names.len() {
                    chars_of(names[col].as_str())
                } else {
                    chars_of("?")
                };
                let msg = concat(
                    &concat(
                        &concat(
                            &concat(&chars_of("Cypher result row "), &decimal_chars(i as u64)),
                            &chars_of(" has no Track id in the '"),
                        ),
                        &column,
                    ),
                    &chars_of("' column (expected a Track node or a content-hash string)"),
                );
                proof {
                    assert forall|j: int| 0 <= j < i implies cell_opt_id(#[trigger] rows@[j]@, col as int) is Some by {
                        assert(Some(ids@[j]@) == cell_opt_id(rows@[j]@, col as int));
                    }
                }
                return Err(SonagramError::Playlist(string_of(&msg)));
            },
        }
        i += 1;
    }
    proof {
        assert forall|j: int| 0 <= j < rows.len() implies cell_opt_id(#[trigger] rows@[j]@, col as int) is Some by {
            assert(Some(ids@[j]@) == cell_opt_id(rows@[j]@, col as int));
        }
    }
    Ok(ids)
}

/// The id in column `col` of a row, if the row has that column.
pub open spec fn cell_opt_id(row: Seq<Cell>, col: int) -> Option<Seq<char>> {
    if 0 <= col < row.len() {
        cell_id(row[col])
    } else {
        None
    }
}

/// `"<n> track id(s) not found in graph: [<ids joined by ", ">]"`.
pub open spec fn missing_ids_detail(ids: Seq<Seq<char>>) -> Seq<char> {
    decimal(ids.len()) + " track id(s) not found in graph: ["@ + joined(ids) + "]"@
}

/// The ids joined by `", "`.
pub open spec fn joined(ids: Seq<Seq<char>>) -> Seq<char>
    decreases ids.len(),
{
    if ids.len() == 0 {
        Seq::empty()
    } else if ids.len() == 1 {
        ids[0]
    } else {
        joined(ids.drop_last()) + ", "@ + ids.last()
    }
}

/// The items joined by `", "`.
pub fn comma_joined(items: &Vec<String>) -> (r: Vec<char>)
    ensures
        r@ == joined(items.deep_view()),
{
    let ghost mv = items.deep_view();
    let mut list: Vec<char> = Vec::new();
    let mut i: usize = 0;
    while i < items.len()
        invariant
            i <= items.len(),
            mv == items.deep_view(),
            list@ == joined(mv.take(i as int)),
        decreases items.len() - i,
    {
        let id = chars_of(items[i].as_str());
        assert(mv.take(i as int + 1).drop_last() =~= mv.take(i as int));
        assert(mv[i as int] == id@);
        if i == 0 {
            list = id;
            assert(mv.take(1) =~= seq![mv[0]]);
        } else {
            list = concat(&concat(&list, &chars_of(", ")), &id);
        }
        i += 1;
    }
    assert(mv.take(items.len() as int) =~= mv);
    list
}

/// The refusal of ids that match no Track.
pub fn missing_ids_error(missing: &Vec<String>) -> (r: SonagramError)
    ensures
        r is Playlist,
        r.detail() == missing_ids_detail(missing.deep_view()),
{
    let list = comma_joined(missing);
    let msg = concat(
        &concat(
            &concat(&decimal_chars(missing.len() as u64), &chars_of(" track id(s) not found in graph: [")),
            &list,
        ),
        &chars_of("]"),
    );
    SonagramError::Playlist(string_of(&msg))
}


// ───────────────────────────── the kglite query ─────────────────────────────

/// A kglite graph, carried through opaquely.
#[verifier::external_type_specification]
#[verifier::external_body]
pub struct ExDirGraph(kglite::api::DirGraph);

/// A value of a kglite query answer, carried through opaquely.
#[verifier::external_type_specification]
#[verifier::external_body]
pub struct ExGraphValue(kglite::api::Value);

/// A node of a kglite query answer, carried through opaquely.
#[verifier::external_type_specification]
#[verifier::external_body]
pub struct ExNodeValue(kglite::api::NodeValue);

/// `kglite::api::session::execute_read` with no parameters bound and the
/// answer materialized eagerly: its column names and rows, or the text of
/// the error. What it answers depends on the graph's contents, which the
/// library does not see, so nothing is stated of the result. The call sets
/// no deadline and no work limit; nothing here rules out that a query panics
/// in the Cypher engine or does not return.
#[verifier::external_body]
fn execute_read_query(
    graph: &kglite::api::DirGraph,
    query: &str,
) -> (r: Result<(Vec<String>, Vec<Vec<kglite::api::Value>>), String>) {
    let params: std::collections::HashMap<String, kglite::api::Value> = std::collections::HashMap::new();
    let opts = kglite::api::session::ExecuteOptions::eager(&params);
    match kglite::api::session::execute_read(graph, query, &opts) {
        Ok(outcome) => Ok((outcome.result.columns, outcome.result.rows)),
        Err(e) => Err(e.to_string()),
    }
}

/// Tells a `kglite::api::Value` apart: the node of a `Node`, else nothing.
/// The value is opaque to the library; nothing is stated of the result.
#[verifier::external_body]
fn value_node(v: &kglite::api::Value) -> (r: Option<&kglite::api::NodeValue>) {
    match v {
        kglite::api::Value::Node(n) => Some(n.as_ref()),
        _ => None,
    }
}

/// Tells a `kglite::api::Value` apart: the text of a `String`, else nothing.
/// The value is opaque to the library; nothing is stated of the result.
#[verifier::external_body]
fn value_text(v: &kglite::api::Value) -> (r: Option<String>) {
    match v {
        kglite::api::Value::String(s) => Some(s.clone()),
        _ => None,
    }
}

/// `PropMap::get` on a node's properties: the property named `key`, if any.
/// The node is opaque to the library; nothing is stated of the result.
#[verifier::external_body]
fn node_property<'a>(n: &'a kglite::api::NodeValue, key: &str) -> (r: Option<&'a kglite::api::Value>) {
    n.properties.get(key)
}

/// `DirGraph::lookup_by_id_readonly` with a string id: whether a node of
/// type `node_type` has id `id`. It depends on the graph's contents; nothing
/// is stated of the result. The lookup takes locks and may build a disk-backed
/// id index; nothing here rules out a panic there.
#[verifier::external_body]
fn has_node_with_id(graph: &kglite::api::DirGraph, node_type: &str, id: &str) -> (r: bool) {
    graph.lookup_by_id_readonly(node_type, &kglite::api::Value::String(id.to_string())).is_some()
}

/// What the id rules read of an answer value: a node with its
/// `content_hash` when that is a string, a string, or anything else.
fn cell_of(v: &kglite::api::Value) -> (r: Cell) {
    match value_node(v) {
        Some(n) => Cell::Node(
            match node_property(n, "content_hash") {
                Some(p) => value_text(p),
                None => None,
            },
        ),
        None => match value_text(v) {
            Some(s) => Cell::Text(s),
            None => Cell::Other,
        },
    }
}

/// The Track ids a read-only query over the graph answers, in row order: the
/// query runs with no parameters bound, the id column is found by
/// [`choose_id_column`] (a first-row string shows a Track when a Track has
/// that id) and each row's id is read by [`extract_track_ids`]. A query that
/// fails is a graph error; an answer without ids is a playlist error.
/// Otherwise the ids are what [`extracted`] gives on some answer. Which
/// answer kglite gives is not a function of the graph and the query text:
/// its Cypher engine has random and clock functions and runs some matches
/// in parallel, so no name for it is stated.
pub fn track_ids_from_cypher(graph: &kglite::api::DirGraph, query: &str) -> (r: Result<Vec<String>, SonagramError>)
    ensures
        r matches Err(e) ==> (e is Graph && "cypher query failed: "@.is_prefix_of(e.detail())) || e is Playlist,
        !(r matches Err(e) && e is Graph) ==> exists|names: Seq<Seq<char>>, rows: Seq<Vec<Cell>>, resolves: Seq<bool>|
            (rows.len() > 0 ==> resolves.len() == rows[0].len()) && #[trigger] extracted(names, rows, resolves, r),
{
    let (names, rows) = match execute_read_query(graph, query) {
        Ok(answer) => answer,
        Err(m) => {
            let p = chars_of("cypher query failed: ");
            let msg = concat(&p, &chars_of(m.as_str()));
            assert(p@.is_prefix_of(msg@)) by {
                assert(msg@.subrange(0, p@.len() as int) =~= p@);
            }
            return Err(SonagramError::Graph(string_of(&msg)));
        },
    };
    let mut cells: Vec<Vec<Cell>> = Vec::new();
    let mut i: usize = 0;
    while i < rows.len()
        invariant
            i <= rows.len(),
        decreases rows.len() - i,
    {
        let mut row: Vec<Cell> = Vec::new();
        let mut j: usize = 0;
        while j < rows[i].len()
            invariant
                i < rows.len(),
                j <= rows[i as int].len(),
            decreases rows[i as int].len() - j,
        {
            row.push(cell_of(&rows[i][j]));
            j += 1;
        }
        cells.push(row);
        i += 1;
    }
    let mut resolves: Vec<bool> = Vec::new();
    if cells.len() > 0 {
        let mut k: usize = 0;
        while k < cells[0].len()
            invariant
                cells.len() > 0,
                k <= cells[0].len(),
                resolves.len() == k,
            decreases cells[0].len() - k,
        {
            let shows = match &cells[0][k] {
                Cell::Text(s) => has_node_with_id(graph, "Track", s.as_str()),
                _ => false,
            };
            resolves.push(shows);
            k += 1;
        }
    }
    let r = extract_track_ids(&names, &cells, &resolves);
    assert(extracted(names.deep_view(), cells@, resolves@, r));
    r
}


/// The ids whose lookup found no Track, in order.
pub open spec fn missing_of(ids: Seq<Seq<char>>, found: Seq<bool>) -> Seq<Seq<char>>
    decreases ids.len(),
{
    if ids.len() == 0 {
        Seq::empty()
    } else {
        let p = missing_of(ids.drop_last(), found);
        if found[ids.len() - 1] {
            p
        } else {
            p.push(ids.last())
        }
    }
}

/// Every id resolves to a Track (`found[i]` tells whether `ids[i]` did), or
/// the refusal that lists every id that does not, in order.
pub fn require_found(ids: &Vec<String>, found: &Vec<bool>) -> (r: Result<(), SonagramError>)
    requires
        found.len() == ids.len(),
    ensures
        r is Ok <==> missing_of(ids.deep_view(), found@).len() == 0,
        r matches Err(e) ==> e is Playlist && e.detail() == missing_ids_detail(missing_of(ids.deep_view(), found@)),
{
    let ghost iv = ids.deep_view();
    let mut missing: Vec<String> = Vec::new();
    let mut i: usize = 0;
    while i < ids.len()
        invariant
            i <= ids.len(),
            found.len() == ids.len(),
            iv == ids.deep_view(),
            missing.deep_view() == missing_of(iv.take(i as int), found@),
        decreases ids.len() - i,
    {
        assert(iv.take(i as int + 1).drop_last() =~= iv.take(i as int));
        if !found[i] {
            let x = ids[i].clone();
            let ghost m0 = missing.deep_view();
            missing.push(x);
            assert(missing.deep_view() =~= m0.push(iv[i as int]));
        }
        i += 1;
    }
    assert(iv.take(ids.len() as int) =~= iv);
    if missing.len() == 0 {
        Ok(())
    } else {
        Err(missing_ids_error(&missing))
    }
}

} // verus!
