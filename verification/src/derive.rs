//! Derived graph structures that do not depend on audio numbers: Camelot
//! codes and their wheel neighbours, unique style names, frequency rankings,
//! the mutual-neighbour edge set, and the union-find that groups styles.

use vstd::prelude::*;

use crate::order::{
    chars_lt, lemma_lex_irreflexive, lemma_lex_total, lemma_lex_transitive, lemma_pigeonhole,
    lex_lt, str_lt,
};
use crate::playlist::contains_chars;
use crate::text::{chars_eq, chars_of, concat, decimal, decimal_chars, digit_char, is_digit, string_of};

verus! {

// ───────────────────────────── Camelot codes ─────────────────────────────

/// The value of a run of ASCII digits.
pub open spec fn digits_value(s: Seq<char>) -> nat
    decreases s.len(),
{
    if s.len() == 0 {
        0
    } else {
        digits_value(s.drop_last()) * 10 + ((s.last() as u32) - 48) as nat
    }
}

/// `u32::from_str` succeeds on `s`: an optional `+`, then at least one ASCII
/// digit, and the value fits in a `u32`.
pub open spec fn parses_as_u32(s: Seq<char>) -> bool {
    let d = unsigned_part(s);
    d.len() > 0 && ascii_digits(d) && digits_value(d) <= u32::MAX
}

/// `s` without one leading `+`.
pub open spec fn unsigned_part(s: Seq<char>) -> Seq<char> {
    if s.len() > 0 && s[0] == '+' {
        s.drop_first()
    } else {
        s
    }
}

/// Every character of `d` is an ASCII digit.
pub open spec fn ascii_digits(d: Seq<char>) -> bool {
    forall|i: int| 0 <= i < d.len() ==> is_digit(#[trigger] d[i])
}

/// The value `u32::from_str` gives.
pub open spec fn u32_value(s: Seq<char>) -> nat {
    digits_value(unsigned_part(s))
}

fn digits_value_exec(d: &[char]) -> (r: u32)
    requires
        forall|i: int| 0 <= i < d@.len() ==> is_digit(#[trigger] d@[i]),
        digits_value(d@) <= u32::MAX,
    ensures
        r == digits_value(d@),
{
    let mut v: u64 = 0;
    let mut i: usize = 0;
    while i < d.len()
        invariant
            i <= d.len(),
            forall|k: int| 0 <= k < d@.len() ==> is_digit(#[trigger] d@[k]),
            v == digits_value(d@.take(i as int)),
            v <= digits_value(d@),
            digits_value(d@) <= u32::MAX,
        decreases d.len() - i,
    {
        assert(d@.take(i as int + 1).drop_last() =~= d@.take(i as int));
        proof {
            lemma_digits_prefix_le(d@, i as int + 1);
        }
        v = v * 10 + ((d[i] as u32) - 48) as u64;
        i += 1;
    }
    assert(d@.take(d.len() as int) =~= d@);
    v as u32
}

proof fn lemma_digits_prefix_le(d: Seq<char>, k: int)
    requires
        0 <= k <= d.len(),
        forall|i: int| 0 <= i < d.len() ==> is_digit(#[trigger] d[i]),
    ensures
        digits_value(d.take(k)) <= digits_value(d),
    decreases d.len() - k,
{
    if k < d.len() {
        lemma_digits_prefix_le(d, k + 1);
        assert(d.take(k + 1).drop_last() =~= d.take(k));
    } else {
        assert(d.take(k) =~= d);
    }
}

/// Parse a Camelot code like `"8A"` / `"12B"` into `(number, letter)`: the
/// letter is the last character, the number the text before it.
pub fn parse_camelot(code: &str) -> (r: (u32, char))
    requires
        code@.len() > 0,
        parses_as_u32(code@.drop_last()),
    ensures
        r.0 == u32_value(code@.drop_last()),
        r.1 == code@.last(),
{
    let v = chars_of(code);
    let letter = v[v.len() - 1];
    let num_part = crate::text::slice_chars(&v, 0, v.len() - 1);
    assert(num_part@ =~= code@.drop_last());
    let ghost s = code@.drop_last();
    let digits = if num_part.len() > 0 && num_part[0] == '+' {
        let d = crate::text::slice_chars(&num_part, 1, num_part.len());
        assert(d@ =~= s.drop_first());
        d
    } else {
        num_part
    };
    assert(digits@ == unsigned_part(s));
    let ds = digits.as_slice();
    assert(ds@ == digits@);
    (digits_value_exec(ds), letter)
}

/// The three wheel neighbours of Camelot code `(num, letter)`: same letter one
/// step up (12 wraps to 1), same letter one step down (1 wraps to 12), and
/// the same number in the other letter.
pub open spec fn camelot_neighbours_of(num: u32, letter: char) -> ((u32, char), (u32, char), (
    u32,
    char,
)) {
    let up = if num == 12 {
        1u32
    } else {
        (num + 1) as u32
    };
    let down = if num == 1 {
        12u32
    } else {
        (num - 1) as u32
    };
    let other = if letter == 'A' {
        'B'
    } else {
        'A'
    };
    ((up, letter), (down, letter), (num, other))
}

/// The `energy_up`, `energy_down` and `mode_switch` neighbours of a code.
pub fn camelot_neighbours(num: u32, letter: char) -> (r: ((u32, char), (u32, char), (u32, char)))
    requires
        1 <= num <= 12,
    ensures
        r == camelot_neighbours_of(num, letter),
{
    let up = if num == 12 {
        1
    } else {
        num + 1
    };
    let down = if num == 1 {
        12
    } else {
        num - 1
    };
    let other = if letter == 'A' {
        'B'
    } else {
        'A'
    };
    ((up, letter), (down, letter), (num, other))
}

/// Stepping up then down (or down then up) the wheel returns to the start.
pub proof fn law_camelot_up_down_inverse(num: u32, letter: char)
    requires
        1 <= num <= 12,
    ensures
        ({
            let up = camelot_neighbours_of(num, letter).0;
            camelot_neighbours_of(up.0, up.1).1 == (num, letter)
        }),
        ({
            let down = camelot_neighbours_of(num, letter).1;
            camelot_neighbours_of(down.0, down.1).0 == (num, letter)
        }),
        ({
            let sw = camelot_neighbours_of(num, letter).2;
            (letter == 'A' || letter == 'B') ==> camelot_neighbours_of(sw.0, sw.1).2 == (
                num,
                letter,
            )
        }),
{
}

// ───────────────────────────── style labels ─────────────────────────────

/// `"<band>-[<term>-]<genre>"`, with `"mixed"` when there is no top genre.
pub open spec fn style_label_of(band: Seq<char>, term: Option<Seq<char>>, genre: Option<Seq<char>>) -> Seq<char> {
    let g = match genre {
        Some(g) => g,
        None => seq!['m', 'i', 'x', 'e', 'd'],
    };
    match term {
        Some(t) => band + seq!['-'] + t + seq!['-'] + g,
        None => band + seq!['-'] + g,
    }
}

/// The descriptive name of a style from its tempo band, its optional
/// acoustic/electric term and its top genre.
pub fn style_label(band: &str, term: Option<&str>, genre: Option<&str>) -> (r: String)
    ensures
        r@ == style_label_of(
            band@,
            match term {
                Some(t) => Some(t@),
                None => None,
            },
            match genre {
                Some(g) => Some(g@),
                None => None,
            },
        ),
{
    let g = match genre {
        Some(g) => chars_of(g),
        None => {
            let m = chars_of("mixed");
            proof {
                reveal_strlit("mixed");
            }
            m
        },
    };
    let mut head = chars_of(band);
    head.push('-');
    let out = match term {
        Some(t) => {
            let mut ht = concat(&head, &chars_of(t));
            ht.push('-');
            concat(&ht, &g)
        },
        None => concat(&head, &g),
    };
    string_of(&out)
}

/// `n` in decimal, left-padded with zeros to at least `width` digits.
pub open spec fn zero_padded(n: nat, width: nat) -> Seq<char> {
    let d = decimal(n);
    if d.len() >= width {
        d
    } else {
        Seq::new((width - d.len()) as nat, |i: int| '0') + d
    }
}

/// The digit width of style ids for `count` styles: at least three.
pub open spec fn style_id_width(count: nat) -> nat {
    if decimal(count).len() > 3 {
        decimal(count).len()
    } else {
        3
    }
}

/// `"style-<index>"`, the index zero-padded to `width` digits.
pub open spec fn style_id_of(index: nat, width: nat) -> Seq<char> {
    seq!['s', 't', 'y', 'l', 'e', '-'] + zero_padded(index, width)
}

/// The id of the `index`-th of `count` styles.
pub fn style_id(index: u64, count: u64) -> (r: String)
    ensures
        r@ == style_id_of(index as nat, style_id_width(count as nat)),
{
    let dc = decimal_chars(count);
    let width: usize = if dc.len() > 3 {
        dc.len()
    } else {
        3
    };
    let d = decimal_chars(index);
    let mut out = chars_of("style-");
    proof {
        reveal_strlit("style-");
    }
    let ghost head = out@;
    let mut pad: usize = d.len();
    while pad < width
        invariant
            d.len() <= pad <= width || (pad == d.len() && d.len() >= width),
            out@ == head + Seq::new((pad - d.len()) as nat, |i: int| '0'),
        decreases width - pad,
    {
        out.push('0');
        assert(out@ =~= head + Seq::new((pad + 1 - d.len()) as nat, |i: int| '0'));
        pad += 1;
    }
    let r = concat(&out, &d);
    proof {
        if d.len() >= width {
            assert(out@ =~= head);
            assert(r@ =~= head + d@);
        } else {
            assert(r@ =~= head + (Seq::new((width - d.len()) as nat, |i: int| '0') + d@));
        }
    }
    string_of(&r)
}

// ───────────────────────────── unique names ─────────────────────────────

/// Occurrences of `x` in `s`.
pub open spec fn count_of(s: Seq<Seq<char>>, x: Seq<char>) -> nat
    decreases s.len(),
{
    if s.len() == 0 {
        0
    } else {
        count_of(s.drop_last(), x) + if s.last() == x {
            1nat
        } else {
            0nat
        }
    }
}

/// `"<base>-<k>"`.
pub open spec fn suffixed(base: Seq<char>, k: nat) -> Seq<char> {
    base + seq!['-'] + decimal(k)
}

/// The smallest `k >= from` whose suffixed name is not yet in `taken`.
pub open spec fn first_free(taken: Seq<Seq<char>>, base: Seq<char>, from: nat) -> nat {
    choose|k: nat|
        k >= from && !taken.contains(suffixed(base, k)) && forall|j: nat|
            from <= j < k ==> taken.contains(#[trigger] suffixed(base, j))
}

/// Unique style names, in order: the first occurrence of a base name is kept
/// verbatim unless a name emitted before it already reads the same; its
/// `n`-th occurrence (or a first occurrence that is already taken, from
/// `n = 2`) gets the first free `-k` suffix with `k >= n`, checked against
/// every name emitted before it.
pub open spec fn unique_names_of(ns: Seq<Seq<char>>) -> Seq<Seq<char>>
    decreases ns.len(),
{
    if ns.len() == 0 {
        Seq::empty()
    } else {
        let prev = unique_names_of(ns.drop_last());
        let base = ns.last();
        let n = count_of(ns, base);
        prev.push(
            if n == 1 && !prev.contains(base) {
                base
            } else {
                suffixed(base, first_free(prev, base, suffix_start(n)))
            },
        )
    }
}

/// The first suffix tried for the `n`-th occurrence of a name.
pub open spec fn suffix_start(n: nat) -> nat {
    if n <= 1 {
        2
    } else {
        n
    }
}

pub proof fn lemma_count_le(s: Seq<Seq<char>>, x: Seq<char>)
    ensures
        count_of(s, x) <= s.len(),
    decreases s.len(),
{
    if s.len() > 0 {
        lemma_count_le(s.drop_last(), x);
    }
}

proof fn lemma_unique_len(ns: Seq<Seq<char>>)
    ensures
        unique_names_of(ns).len() == ns.len(),
    decreases ns.len(),
{
    if ns.len() > 0 {
        lemma_unique_len(ns.drop_last());
    }
}

/// Decimal representations are injective.
pub proof fn lemma_decimal_injective(a: nat, b: nat)
    requires
        decimal(a) == decimal(b),
    ensures
        a == b,
    decreases a,
{
    if a < 10 && b < 10 {
        assert(decimal(a) == seq![digit_char(a)]);
        assert(decimal(b) == seq![digit_char(b)]);
        assert(seq![digit_char(a)][0] == digit_char(a));
        assert(seq![digit_char(b)][0] == digit_char(b));
        lemma_digit_char_injective(a, b);
    } else if a < 10 {
        lemma_decimal_len(b / 10);
        assert(decimal(b).len() >= 2);
    } else if b < 10 {
        lemma_decimal_len(a / 10);
        assert(decimal(a).len() >= 2);
    } else {
        let da = decimal(a);
        let db = decimal(b);
        assert(da.drop_last() =~= decimal(a / 10));
        assert(db.drop_last() =~= decimal(b / 10));
        assert(da.last() == db.last());
        lemma_digit_char_injective(a % 10, b % 10);
        lemma_decimal_injective(a / 10, b / 10);
    }
}

proof fn lemma_digit_char_injective(a: nat, b: nat)
    requires
        a < 10,
        b < 10,
        digit_char(a) == digit_char(b),
    ensures
        a == b,
{
    assert(digit_char(a) as u32 == a + 48);
    assert(digit_char(b) as u32 == b + 48);
}

proof fn lemma_decimal_len(n: nat)
    ensures
        decimal(n).len() >= 1,
    decreases n,
{
    if n >= 10 {
        lemma_decimal_len(n / 10);
    }
}

proof fn lemma_suffixed_injective(base: Seq<char>, a: nat, b: nat)
    requires
        suffixed(base, a) == suffixed(base, b),
    ensures
        a == b,
{
    let sa = suffixed(base, a);
    assert(sa.skip((base.len() + 1) as int) =~= decimal(a));
    assert(suffixed(base, b).skip((base.len() + 1) as int) =~= decimal(b));
    lemma_decimal_injective(a, b);
}

/// Make ordered base style names unique (see [`unique_names_of`]).
pub fn unique_names(names: &[&str]) -> (r: Vec<String>)
    requires
        names@.len() < u64::MAX / 4,
    ensures
        r.deep_view() == unique_names_of(Seq::new(names@.len(), |i: int| names@[i]@)),
{
    let ghost ns = Seq::new(names@.len(), |i: int| names@[i]@);
    let mut out: Vec<String> = Vec::new();
    let mut i: usize = 0;
    while i < names.len()
        invariant
            i <= names.len() < u64::MAX / 4,
            ns == Seq::new(names@.len(), |i: int| names@[i]@),
            out.deep_view() == unique_names_of(ns.take(i as int)),
            out.len() == i,
        decreases names.len() - i,
    {
        let ghost pre = ns.take(i as int + 1);
        assert(pre.drop_last() =~= ns.take(i as int));
        let base = chars_of(names[i]);
        assert(pre.last() == base@);
        let mut n: u64 = 0;
        let mut j: usize = 0;
        while j <= i
            invariant
                j <= i + 1,
                i < names.len() < u64::MAX / 4,
                ns == Seq::new(names@.len(), |i: int| names@[i]@),
                base@ == ns[i as int],
                n == count_of(ns.take(j as int), base@),
                n <= j,
            decreases i + 1 - j,
        {
            assert(ns.take(j as int + 1).drop_last() =~= ns.take(j as int));
            if chars_eq(&chars_of(names[j]), &base) {
                n = n + 1;
            }
            j += 1;
        }
        assert(ns.take(i as int + 1) == pre);
        let ghost prev = out.deep_view();
        let verbatim = n == 1 && !contains_chars(&out, &base);
        let name: Vec<char> = if verbatim {
            base
        } else {
            proof {
                lemma_count_le(pre, base@);
            }
            let from: u64 = if n <= 1 {
                2
            } else {
                n
            };
            let mut k: u64 = from;
            let ghost f = |x: int| suffixed(base@, x as nat);
            let mut picked: Vec<char> = Vec::new();
            loop
                invariant
                    from <= k <= from + prev.len(),
                    from == suffix_start(n as nat),
                    from >= 2,
                    from <= i + 2,
                    prev.len() == i,
                    i < u64::MAX / 4,
                    out.deep_view() == prev,
                    f == (|x: int| suffixed(base@, x as nat)),
                    forall|jj: nat| from <= jj < k ==> prev.contains(#[trigger] suffixed(base@, jj)),
                ensures
                    picked@ == suffixed(base@, first_free(prev, base@, from as nat)),
                decreases from + prev.len() - k,
            {
                let mut head = base.clone();
                head.push('-');
                let cand = concat(&head, &decimal_chars(k));
                assert(cand@ =~= suffixed(base@, k as nat));
                if !contains_chars(&out, &cand) {
                    proof {
                        let c = first_free(prev, base@, from as nat);
                        assert(!prev.contains(suffixed(base@, k as nat)));
                        assert(k >= from && !prev.contains(suffixed(base@, k as nat)) && forall|jj: nat|
                            from <= jj < k ==> prev.contains(#[trigger] suffixed(base@, jj)));
                        assert(c >= from && !prev.contains(suffixed(base@, c)) && forall|jj: nat|
                            from <= jj < c ==> prev.contains(#[trigger] suffixed(base@, jj)));
                        if c < k {
                            assert(prev.contains(suffixed(base@, c)));
                        }
                        if k < c {
                            assert(prev.contains(suffixed(base@, k as nat)));
                        }
                    }
                    picked = cand;
                    break;
                }
                proof {
                    if k == from + prev.len() {
                        assert forall|x: int, y: int|
                            from <= x <= from + prev.len() && from <= y <= from + prev.len() && x != y implies #[trigger] f(
                            x,
                        ) != #[trigger] f(y) by {
                            if f(x) == f(y) {
                                lemma_suffixed_injective(base@, x as nat, y as nat);
                            }
                        }
                        lemma_pigeonhole(prev, f, from as int);
                        let w = choose|w: int| from <= w <= from + prev.len() && !prev.contains(#[trigger] f(w));
                        assert(prev.contains(suffixed(base@, w as nat)));
                        assert(false);
                    }
                }
                k = k + 1;
            }
            picked
        };
        let ghost o0 = out.deep_view();
        out.push(string_of(&name));
        assert(out.deep_view() =~= o0.push(name@));
        i += 1;
    }
    assert(ns.take(names.len() as int) =~= ns);
    out
}

/// No name repeats a name emitted before it, so all the names are distinct
/// (a base that already ends in a number never aliases a generated one); a
/// first occurrence is kept verbatim when no earlier name reads the same.
pub proof fn law_unique_names(ns: Seq<Seq<char>>, i: int)
    requires
        0 <= i < ns.len(),
    ensures
        unique_names_of(ns).len() == ns.len(),
        unique_names_of(ns.take(i + 1)) == unique_names_of(ns).take(i + 1),
        count_of(ns.take(i + 1), ns[i]) == 1 && !unique_names_of(ns).take(i).contains(ns[i])
            ==> unique_names_of(ns)[i] == ns[i],
        !unique_names_of(ns).take(i).contains(unique_names_of(ns)[i]),
    decreases ns.len(),
{
    lemma_unique_len(ns);
    if i < ns.len() - 1 {
        law_unique_names(ns.drop_last(), i);
        assert(ns.drop_last().take(i + 1) =~= ns.take(i + 1));
        lemma_unique_len(ns.drop_last());
        assert(unique_names_of(ns).take(i + 1) =~= unique_names_of(ns.drop_last()).take(i + 1));
        assert(unique_names_of(ns).take(i) =~= unique_names_of(ns.drop_last()).take(i));
    } else {
        assert(ns.take(i + 1) =~= ns);
        let prev = unique_names_of(ns.drop_last());
        lemma_unique_len(ns.drop_last());
        assert(unique_names_of(ns).take(i) =~= prev);
        assert(unique_names_of(ns).take(i + 1) =~= unique_names_of(ns));
        let n = count_of(ns, ns.last());
        let base = ns.last();
        if !(n == 1 && !prev.contains(base)) {
            let from = suffix_start(n);
            let f = |x: int| suffixed(base, x as nat);
            assert forall|x: int, y: int|
                from <= x <= from + prev.len() && from <= y <= from + prev.len() && x != y implies #[trigger] f(x)
                != #[trigger] f(y) by {
                if f(x) == f(y) {
                    lemma_suffixed_injective(base, x as nat, y as nat);
                }
            }
            lemma_pigeonhole(prev, f, from as int);
            let w = choose|w: int| from <= w <= from + prev.len() && !prev.contains(#[trigger] f(w));
            lemma_first_free_exists(prev, base, from, w as nat);
        }
    }
}

/// All the unique names are pairwise distinct.
pub proof fn law_unique_names_distinct(ns: Seq<Seq<char>>, i: int, j: int)
    requires
        0 <= i < j < ns.len(),
    ensures
        unique_names_of(ns)[i] != unique_names_of(ns)[j],
{
    law_unique_names(ns, j);
    assert(unique_names_of(ns).take(j)[i] == unique_names_of(ns)[i]);
}

proof fn lemma_first_free_exists(taken: Seq<Seq<char>>, base: Seq<char>, from: nat, w: nat)
    requires
        w >= from,
        !taken.contains(suffixed(base, w)),
    ensures
        ({
            let c = first_free(taken, base, from);
            c >= from && !taken.contains(suffixed(base, c))
        }),
    decreases w - from,
{
    if exists|k: nat|
        from <= k < w && !taken.contains(#[trigger] suffixed(base, k)) {
        let k = choose|k: nat| from <= k < w && !taken.contains(#[trigger] suffixed(base, k));
        lemma_first_free_exists(taken, base, from, k);
    } else {
        assert(w >= from && !taken.contains(suffixed(base, w)) && forall|j: nat|
            from <= j < w ==> taken.contains(#[trigger] suffixed(base, j)));
    }
}

// ───────────────────────────── frequency ranking ─────────────────────────────

/// `a` ranks ahead of `b` among `items`: more occurrences first, then by
/// name ascending.
pub open spec fn ranks_before(items: Seq<Seq<char>>, a: Seq<char>, b: Seq<char>) -> bool {
    count_of(items, a) > count_of(items, b) || (count_of(items, a) == count_of(items, b)
        && lex_lt(a, b))
}

/// The ranking is a strict order: irreflexive, transitive, and total on
/// distinct names.
pub proof fn law_ranking_strict_total(items: Seq<Seq<char>>, a: Seq<char>, b: Seq<char>, c: Seq<char>)
    ensures
        !ranks_before(items, a, a),
        ranks_before(items, a, b) && ranks_before(items, b, c) ==> ranks_before(items, a, c),
        a != b ==> (ranks_before(items, a, b) || ranks_before(items, b, a)),
        !(ranks_before(items, a, b) && ranks_before(items, b, a)),
{
    lemma_lex_irreflexive(a);
    lemma_lex_total(a, b);
    if lex_lt(a, b) && lex_lt(b, c) {
        lemma_lex_transitive(a, b, c);
    }
}

/// Occurrences of `c` in `items`.
pub fn count_occurrences(items: &Vec<String>, c: &[char]) -> (r: usize)
    ensures
        r == count_of(items.deep_view(), c@),
{
    let ghost s = items.deep_view();
    let mut n: usize = 0;
    let mut i: usize = 0;
    while i < items.len()
        invariant
            i <= items.len(),
            s == items.deep_view(),
            n == count_of(s.take(i as int), c@),
            n <= i,
        decreases items.len() - i,
    {
        assert(s.take(i as int + 1).drop_last() =~= s.take(i as int));
        if chars_eq(&chars_of(items[i].as_str()), c) {
            n = n + 1;
        }
        i += 1;
    }
    assert(s.take(items.len() as int) =~= s);
    n
}

/// Up to `k` of the distinct `items`, most frequent first, ties by name
/// ascending.
pub fn top_counts(items: &Vec<String>, k: usize) -> (r: Vec<String>)
    ensures
        r.len() <= k,
        forall|i: int| 0 <= i < r.len() ==> items.deep_view().contains(#[trigger] r.deep_view()[i]),
        forall|i: int, j: int|
            0 <= i < j < r.len() ==> ranks_before(
                items.deep_view(),
                #[trigger] r.deep_view()[i],
                #[trigger] r.deep_view()[j],
            ),
        forall|x: Seq<char>|
            items.deep_view().contains(x) && !r.deep_view().contains(x) ==> r.len() == k && forall|
                i: int,
            |
                0 <= i < r.len() ==> ranks_before(items.deep_view(), #[trigger] r.deep_view()[i], x),
{
    let ghost s = items.deep_view();
    let mut out: Vec<String> = Vec::new();
    loop
        invariant
            s == items.deep_view(),
            out.len() <= k,
            forall|i: int| 0 <= i < out.len() ==> s.contains(#[trigger] out.deep_view()[i]),
            forall|i: int, j: int|
                0 <= i < j < out.len() ==> ranks_before(
                    s,
                    #[trigger] out.deep_view()[i],
                    #[trigger] out.deep_view()[j],
                ),
            forall|x: Seq<char>|
                s.contains(x) && !out.deep_view().contains(x) ==> forall|i: int|
                    0 <= i < out.len() ==> ranks_before(s, #[trigger] out.deep_view()[i], x),
        ensures
            out.len() <= k,
            forall|i: int| 0 <= i < out.len() ==> s.contains(#[trigger] out.deep_view()[i]),
            forall|i: int, j: int|
                0 <= i < j < out.len() ==> ranks_before(
                    s,
                    #[trigger] out.deep_view()[i],
                    #[trigger] out.deep_view()[j],
                ),
            forall|x: Seq<char>|
                s.contains(x) && !out.deep_view().contains(x) ==> out.len() == k && forall|i: int|
                    0 <= i < out.len() ==> ranks_before(s, #[trigger] out.deep_view()[i], x),
        decreases k - out.len(),
    {
        if out.len() == k {
            break;
        }
        let ghost o = out.deep_view();
        let mut best: Option<usize> = None;
        let mut best_chars: Vec<char> = Vec::new();
        let mut best_count: usize = 0;
        let mut i: usize = 0;
        while i < items.len()
            invariant
                i <= items.len(),
                s == items.deep_view(),
                o == out.deep_view(),
                match best {
                    Some(b) => {
                        &&& b < i
                        &&& best_chars@ == s[b as int]
                        &&& best_count == count_of(s, s[b as int])
                        &&& !o.contains(s[b as int])
                        &&& forall|j: int|
                            0 <= j < i && !o.contains(#[trigger] s[j]) ==> s[j] == s[b as int]
                                || ranks_before(s, s[b as int], s[j])
                    },
                    None => forall|j: int| 0 <= j < i ==> o.contains(#[trigger] s[j]),
                },
            decreases items.len() - i,
        {
            let c = chars_of(items[i].as_str());
            assert(c@ == s[i as int]);
            if !contains_chars(&out, &c) {
                let cnt = count_occurrences(items, &c);
                let better = match best {
                    None => true,
                    Some(_) => cnt > best_count || (cnt == best_count && chars_lt(&c, &best_chars)),
                };
                if better {
                    proof {
                        if let Some(b) = best {
                            assert forall|j: int|
                                0 <= j < i + 1 && !o.contains(#[trigger] s[j]) implies s[j] == s[i as int]
                                || ranks_before(s, s[i as int], s[j]) by {
                                if j < i {
                                    law_ranking_strict_total(s, s[i as int], s[b as int], s[j]);
                                }
                            }
                        }
                    }
                    best = Some(i);
                    best_chars = c;
                    best_count = cnt;
                } else {
                    proof {
                        if let Some(b) = best {
                            law_ranking_strict_total(s, s[b as int], s[i as int], s[i as int]);
                        }
                    }
                }
            }
            i += 1;
        }
        match best {
            None => {
                proof {
                    assert forall|x: Seq<char>| s.contains(x) implies out.deep_view().contains(x) by {
                        let j = choose|j: int| 0 <= j < s.len() && s[j] == x;
                        assert(o.contains(s[j]));
                    }
                }
                break;
            },
            Some(b) => {
                proof {
                    assert(s.contains(s[b as int]));
                }
                out.push(string_of(&best_chars));
                proof {
                    let o2 = out.deep_view();
                    assert(o2 =~= o.push(s[b as int]));
                    assert forall|x: Seq<char>|
                        s.contains(x) && !o2.contains(x) implies forall|ii: int|
                        0 <= ii < o2.len() ==> ranks_before(s, #[trigger] o2[ii], x) by {
                        assert(!o.contains(x)) by {
                            if o.contains(x) {
                                let t = choose|t: int| 0 <= t < o.len() && o[t] == x;
                                assert(o2[t] == x);
                            }
                        }
                        assert(x != s[b as int]) by {
                            assert(o2[o.len() as int] == s[b as int]);
                        }
                        let j = choose|j: int| 0 <= j < s.len() && s[j] == x;
                        assert(!o.contains(s[j]));
                        assert forall|ii: int| 0 <= ii < o2.len() implies ranks_before(
                            s,
                            #[trigger] o2[ii],
                            x,
                        ) by {
                            if ii < o.len() {
                                assert(o2[ii] == o[ii]);
                            }
                        }
                    }
                    assert forall|ii: int, jj: int|
                        0 <= ii < jj < o2.len() implies ranks_before(
                        s,
                        #[trigger] o2[ii],
                        #[trigger] o2[jj],
                    ) by {
                        if jj == o.len() {
                            assert(o2[ii] == o[ii]);
                        } else {
                            assert(o2[ii] == o[ii]);
                            assert(o2[jj] == o[jj]);
                        }
                    }
                    assert forall|ii: int| 0 <= ii < o2.len() implies s.contains(#[trigger] o2[ii]) by {
                        if ii < o.len() {
                            assert(o2[ii] == o[ii]);
                        }
                    }
                }
            },
        }
    }
    out
}

// ───────────────────────────── union-find ─────────────────────────────

/// The members of `0..roots.len()` whose representative is `r`.
pub open spec fn class_of(roots: Seq<int>, r: int) -> Set<int> {
    Set::new(|i: int| 0 <= i < roots.len() && roots[i] == r)
}

/// The representatives after joining the classes of `a` and `b`: the larger
/// class's representative absorbs the other; on a tie the smaller
/// representative wins.
pub open spec fn joined(roots: Seq<int>, a: int, b: int) -> Seq<int> {
    let ra = roots[a];
    let rb = roots[b];
    let la = class_of(roots, ra).len();
    let lb = class_of(roots, rb).len();
    let big = if la > lb || (la == lb && ra <= rb) {
        ra
    } else {
        rb
    };
    Seq::new(roots.len(), |i: int| if roots[i] == ra || roots[i] == rb { big } else { roots[i] })
}

/// A disjoint-set forest over `0..n`, with path halving and union by size.
/// Its view maps each element to the representative of its class.
pub struct UnionFind {
    parent: Vec<usize>,
    size: Vec<usize>,
    roots: Ghost<Seq<int>>,
    rank: Ghost<Seq<nat>>,
    rank_bound: Ghost<nat>,
}

impl View for UnionFind {
    type V = Seq<int>;

    closed spec fn view(&self) -> Seq<int> {
        self.roots@
    }
}

impl UnionFind {
    /// The forest is consistent: parents stay in range, ranks grow towards
    /// the roots, every element's representative is the root its parent
    /// chain reaches, and a root's size is the size of its class.
    pub closed spec fn wf(&self) -> bool {
        let n = self.parent.len();
        &&& self.size.len() == n
        &&& self.roots@.len() == n
        &&& self.rank@.len() == n
        &&& forall|i: int| 0 <= i < n ==> #[trigger] self.parent[i] < n
        &&& forall|i: int| 0 <= i < n ==> self.rank@[i] <= self.rank_bound@
        &&& forall|i: int|
            0 <= i < n ==> 0 <= #[trigger] self.roots@[i] < n && self.parent[self.roots@[i]]
                == self.roots@[i]
        &&& forall|i: int|
            0 <= i < n && #[trigger] self.parent[i] != i ==> self.rank@[self.parent[i] as int]
                > self.rank@[i] && self.roots@[self.parent[i] as int] == self.roots@[i]
        &&& forall|i: int| 0 <= i < n && #[trigger] self.parent[i] == i ==> self.roots@[i] == i
        &&& forall|r: int|
            0 <= r < n && #[trigger] self.parent[r] == r ==> self.size[r] == class_of(
                self.roots@,
                r,
            ).len()
    }

    /// Every element of `0..n` in a class of its own.
    pub fn new(n: usize) -> (uf: Self)
        ensures
            uf.wf(),
            uf@ == Seq::new(n as nat, |i: int| i),
    {
        let mut parent: Vec<usize> = Vec::new();
        let mut size: Vec<usize> = Vec::new();
        let ghost roots = Seq::new(n as nat, |i: int| i);
        let mut i: usize = 0;
        while i < n
            invariant
                i <= n,
                parent.len() == i,
                size.len() == i,
                forall|j: int| 0 <= j < i ==> parent[j] == j,
                forall|j: int| 0 <= j < i ==> size[j] == 1,
            decreases n - i,
        {
            parent.push(i);
            size.push(1);
            i += 1;
        }
        let uf = UnionFind {
            parent,
            size,
            roots: Ghost(roots),
            rank: Ghost(Seq::new(n as nat, |i: int| 0nat)),
            rank_bound: Ghost(0),
        };
        assert forall|r: int| 0 <= r < n && #[trigger] uf.parent[r] == r implies uf.size[r]
            == class_of(uf.roots@, r).len() by {
            assert(class_of(roots, r) =~= set![r]);
        }
        uf
    }

    /// The number of elements.
    pub fn len(&self) -> (r: usize)
        requires
            self.wf(),
        ensures
            r == self@.len(),
    {
        self.parent.len()
    }

    /// The representative of `x`'s class; the classes are left as they were.
    pub fn find(&mut self, x: usize) -> (r: usize)
        requires
            old(self).wf(),
            x < old(self)@.len(),
        ensures
            final(self).wf(),
            final(self)@ == old(self)@,
            r == old(self)@[x as int],
    {
        let ghost n = self.parent.len();
        let mut x = x;
        let ghost x0 = x as int;
        while self.parent[x] != x
            invariant
                self.wf(),
                self.parent.len() == n,
                self@ == old(self)@,
                x < n,
                self.roots@[x as int] == old(self)@[x0],
            decreases self.rank_bound@ - self.rank@[x as int],
        {
            let p = self.parent[x];
            let pp = self.parent[p];
            let ghost before = *self;
            self.parent.set(x, pp);
            proof {
                assert forall|i: int| 0 <= i < n implies #[trigger] self.parent[i] < n by {
                    if i != x {
                        assert(self.parent[i] == before.parent[i]);
                    }
                }
                assert forall|i: int|
                    0 <= i < n implies 0 <= #[trigger] self.roots@[i] < n && self.parent[self.roots@[i]]
                    == self.roots@[i] by {
                    assert(before.parent[before.roots@[i]] == before.roots@[i]);
                    if before.roots@[i] == x {
                        assert(before.roots@[x as int] == x);
                    }
                }
                assert forall|i: int|
                    0 <= i < n && #[trigger] self.parent[i] != i implies self.rank@[self.parent[i] as int]
                    > self.rank@[i] && self.roots@[self.parent[i] as int] == self.roots@[i] by {
                    if i != x {
                        assert(self.parent[i] == before.parent[i]);
                    } else {
                        assert(before.parent[p as int] != p ==> before.rank@[pp as int]
                            > before.rank@[p as int]);
                    }
                }
                assert forall|i: int| 0 <= i < n && #[trigger] self.parent[i] == i implies self.roots@[i]
                    == i by {
                    if i != x {
                        assert(before.parent[i] == self.parent[i]);
                    } else {
                        assert(before.parent[p as int] != p ==> before.rank@[pp as int]
                            > before.rank@[p as int]);
                    }
                }
                assert forall|r: int|
                    0 <= r < n && #[trigger] self.parent[r] == r implies self.size[r] == class_of(
                    self.roots@,
                    r,
                ).len() by {
                    if r != x {
                        assert(before.parent[r] == self.parent[r]);
                    } else {
                        assert(before.parent[p as int] != p ==> before.rank@[pp as int]
                            > before.rank@[p as int]);
                    }
                }
            }
            x = pp;
        }
        x
    }

    /// Join the classes of `a` and `b` (see [`joined`]).
    pub fn union(&mut self, a: usize, b: usize)
        requires
            old(self).wf(),
            a < old(self)@.len(),
            b < old(self)@.len(),
        ensures
            final(self).wf(),
            final(self)@ == joined(old(self)@, a as int, b as int),
    {
        let ghost old_roots = self@;
        let ra = self.find(a);
        let rb = self.find(b);
        let ghost n = self.parent.len() as int;
        if ra == rb {
            assert(joined(old_roots, a as int, b as int) =~= old_roots);
            return;
        }
        assert(self.parent[ra as int] == ra);
        assert(self.parent[rb as int] == rb);
        let (big, small) = if self.size[ra] > self.size[rb] || (self.size[ra] == self.size[rb] && ra < rb) {
            (ra, rb)
        } else {
            (rb, ra)
        };
        let ghost before = *self;
        let ghost roots2 = Seq::new(
            n as nat,
            |i: int| if before.roots@[i] == small { big as int } else { before.roots@[i] },
        );
        proof {
            lemma_class_union(before.roots@, big as int, small as int);
        }
        let grown = self.size[big] + self.size[small];
        self.parent.set(small, big);
        self.size.set(big, grown);
        self.roots = Ghost(roots2);
        proof {
            let new_rank: nat = if before.rank@[big as int] > before.rank@[small as int] {
                before.rank@[big as int]
            } else {
                before.rank@[small as int] + 1
            };
            self.rank = Ghost(before.rank@.update(big as int, new_rank));
            self.rank_bound = Ghost(before.rank_bound@ + 1);
        }
        proof {
            assert forall|i: int| 0 <= i < n implies #[trigger] self.parent[i] < n by {
                if i != small {
                    assert(self.parent[i] == before.parent[i]);
                }
            }
            assert forall|i: int|
                0 <= i < n implies 0 <= #[trigger] self.roots@[i] < n && self.parent[self.roots@[i]]
                == self.roots@[i] by {
                assert(before.parent[before.roots@[i]] == before.roots@[i]);
            }
            assert forall|i: int|
                0 <= i < n && #[trigger] self.parent[i] != i implies self.rank@[self.parent[i] as int]
                > self.rank@[i] && self.roots@[self.parent[i] as int] == self.roots@[i] by {
                if i != small {
                    assert(self.parent[i] == before.parent[i]);
                    assert(before.parent[big as int] == big);
                }
            }
            assert forall|i: int| 0 <= i < n && #[trigger] self.parent[i] == i implies self.roots@[i]
                == i by {
                if i != small {
                    assert(before.parent[i] == self.parent[i]);
                }
            }
            assert forall|r: int|
                0 <= r < n && #[trigger] self.parent[r] == r implies self.size[r] == class_of(
                self.roots@,
                r,
            ).len() by {
                assert(before.parent[r] == r);
                if r != big {
                    assert(self.size[r] == before.size[r]);
                    assert(class_of(roots2, r) =~= class_of(before.roots@, r));
                } else {
                    assert(roots2 =~= Seq::new(
                        before.roots@.len(),
                        |i: int| if before.roots@[i] == small as int { big as int } else { before.roots@[i] },
                    ));
                }
            }
            assert forall|i: int| 0 <= i < n implies self.rank@[i] <= self.rank_bound@ by {
                assert(before.rank@[i] <= before.rank_bound@);
            }
            let j = joined(old_roots, a as int, b as int);
            assert(old_roots[a as int] == ra);
            assert(old_roots[b as int] == rb);
            assert(j =~= roots2);
        }
    }
}

proof fn lemma_class_union(roots: Seq<int>, big: int, small: int)
    requires
        big != small,
    ensures
        class_of(
            Seq::new(roots.len(), |i: int| if roots[i] == small { big } else { roots[i] }),
            big,
        ) == class_of(roots, big).union(class_of(roots, small)),
        class_of(roots, big).disjoint(class_of(roots, small)),
        class_of(roots, big).union(class_of(roots, small)).len() == class_of(roots, big).len()
            + class_of(roots, small).len(),
        class_of(roots, big).len() + class_of(roots, small).len() <= roots.len(),
        class_of(roots, big).finite(),
        class_of(roots, small).finite(),
{
    let r2 = Seq::new(roots.len(), |i: int| if roots[i] == small { big } else { roots[i] });
    assert(class_of(r2, big) =~= class_of(roots, big).union(class_of(roots, small)));
    let range = vstd::set_lib::set_int_range(0, roots.len() as int);
    vstd::set_lib::lemma_int_range(0, roots.len() as int);
    let u = class_of(roots, big).union(class_of(roots, small));
    assert(u.subset_of(range));
    vstd::set_lib::lemma_len_subset(u, range);
    vstd::set_lib::lemma_len_subset(class_of(roots, big), range);
    vstd::set_lib::lemma_len_subset(class_of(roots, small), range);
    vstd::set_lib::lemma_set_disjoint_lens(class_of(roots, big), class_of(roots, small));
}

/// After joining `a` and `b`, two elements share a class exactly when they
/// shared one before, or one was with `a` and the other with `b`.
pub proof fn law_union_joins_exactly_two_classes(roots: Seq<int>, a: int, b: int, i: int, j: int)
    requires
        0 <= a < roots.len(),
        0 <= b < roots.len(),
        0 <= i < roots.len(),
        0 <= j < roots.len(),
    ensures
        (joined(roots, a, b)[i] == joined(roots, a, b)[j]) <==> (roots[i] == roots[j] || (roots[i]
            == roots[a] && roots[j] == roots[b]) || (roots[i] == roots[b] && roots[j] == roots[a])),
        joined(roots, a, b)[a] == joined(roots, a, b)[b],
{
}

// ───────────────────────────── mutual neighbours ─────────────────────────────

/// One directed similarity edge with its score.
pub struct SimEdge<S> {
    pub src: String,
    pub tgt: String,
    pub score: S,
}

/// The edge as plain values.
pub open spec fn edge_view<S>(e: SimEdge<S>) -> (Seq<char>, Seq<char>, S) {
    (e.src@, e.tgt@, e.score)
}

/// The reverse of edge `(a, b)` is among `es`.
pub open spec fn reciprocated<S>(es: Seq<(Seq<char>, Seq<char>, S)>, a: Seq<char>, b: Seq<char>) -> bool {
    exists|j: int| 0 <= j < es.len() && (#[trigger] es[j]).0 == b && es[j].1 == a
}

/// The mutual edges in input order, each once with `src < tgt`: the edges of
/// `es[..n]` whose source sorts before their target and whose reverse is
/// anywhere in `es`.
pub open spec fn mutual_prefix<S>(es: Seq<(Seq<char>, Seq<char>, S)>, n: int) -> Seq<(Seq<char>, Seq<char>, S)>
    decreases n,
{
    if n <= 0 {
        Seq::empty()
    } else {
        let prev = mutual_prefix(es, n - 1);
        let e = es[n - 1];
        if lex_lt(e.0, e.1) && reciprocated(es, e.0, e.1) {
            prev.push(e)
        } else {
            prev
        }
    }
}

/// The mutual-neighbour pairs of a directed edge list.
pub open spec fn mutual_pairs_of<S>(es: Seq<(Seq<char>, Seq<char>, S)>) -> Seq<(Seq<char>, Seq<char>, S)> {
    mutual_prefix(es, es.len() as int)
}

/// The unordered pairs `(a, b)` with both `a -> b` and `b -> a` present,
/// emitted once as `a < b` with the score of the `a -> b` edge, in input
/// order.
pub fn mutual_pairs<S: Copy>(sim_edges: &[SimEdge<S>]) -> (r: Vec<(&str, &str, S)>)
    ensures
        Seq::new(r@.len(), |i: int| (r@[i].0@, r@[i].1@, r@[i].2)) == mutual_pairs_of(
            sim_edges@.map_values(|e: SimEdge<S>| edge_view(e)),
        ),
{
    let ghost es = sim_edges@.map_values(|e: SimEdge<S>| edge_view(e));
    let mut out: Vec<(&str, &str, S)> = Vec::new();
    let mut i: usize = 0;
    while i < sim_edges.len()
        invariant
            i <= sim_edges.len(),
            es == sim_edges@.map_values(|e: SimEdge<S>| edge_view(e)),
            Seq::new(out@.len(), |k: int| (out@[k].0@, out@[k].1@, out@[k].2)) == mutual_prefix(
                es,
                i as int,
            ),
        decreases sim_edges.len() - i,
    {
        let a = sim_edges[i].src.as_str();
        let b = sim_edges[i].tgt.as_str();
        assert(es[i as int] == (a@, b@, sim_edges[i as int].score));
        let ghost before = Seq::new(out@.len(), |k: int| (out@[k].0@, out@[k].1@, out@[k].2));
        let keep = if str_lt(a, b) {
            let mut found = false;
            let mut j: usize = 0;
            while j < sim_edges.len()
                invariant
                    j <= sim_edges.len(),
                    es == sim_edges@.map_values(|e: SimEdge<S>| edge_view(e)),
                    found == exists|t: int| 0 <= t < j && (#[trigger] es[t]).0 == b@ && es[t].1 == a@,
                decreases sim_edges.len() - j,
            {
                assert(es[j as int] == edge_view(sim_edges[j as int]));
                if !found && str_eq(sim_edges[j].src.as_str(), b) && str_eq(sim_edges[j].tgt.as_str(), a) {
                    found = true;
                }
                j += 1;
            }
            found
        } else {
            false
        };
        if keep {
            out.push((a, b, sim_edges[i].score));
        }
        assert(Seq::new(out@.len(), |k: int| (out@[k].0@, out@[k].1@, out@[k].2)) =~= mutual_prefix(
            es,
            i as int + 1,
        ));
        i += 1;
    }
    out
}

/// Whether two strings are equal.
fn str_eq(a: &str, b: &str) -> (r: bool)
    ensures
        r == (a@ == b@),
{
    chars_eq(&chars_of(a), &chars_of(b))
}

/// Every mutual pair is emitted with its source before its target, and its
/// reverse edge is present in the input.
pub proof fn law_mutual_pairs_are_reciprocated<S>(es: Seq<(Seq<char>, Seq<char>, S)>, n: int, i: int)
    requires
        0 <= n <= es.len(),
        0 <= i < mutual_prefix(es, n).len(),
    ensures
        lex_lt(mutual_prefix(es, n)[i].0, mutual_prefix(es, n)[i].1),
        reciprocated(es, mutual_prefix(es, n)[i].0, mutual_prefix(es, n)[i].1),
        es.subrange(0, n).contains(mutual_prefix(es, n)[i]),
    decreases n,
{
    if n > 0 {
        let prev = mutual_prefix(es, n - 1);
        if i < prev.len() {
            law_mutual_pairs_are_reciprocated(es, n - 1, i);
            let t = choose|t: int| 0 <= t < n - 1 && #[trigger] es.subrange(0, n - 1)[t] == prev[i];
            assert(es.subrange(0, n)[t] == prev[i]);
        } else {
            assert(es.subrange(0, n)[n - 1] == es[n - 1]);
        }
    }
}

// ───────────────────────────── style communities ─────────────────────────────

/// The last position of `h` among the first `n` hashes.
pub open spec fn last_index(hs: Seq<Seq<char>>, h: Seq<char>, n: int) -> Option<int>
    decreases n,
{
    if n <= 0 {
        None
    } else if hs[n - 1] == h {
        Some(n - 1)
    } else {
        last_index(hs, h, n - 1)
    }
}

/// The position that stands for `h` among the hashes (its last one).
pub open spec fn index_in(hs: Seq<Seq<char>>, h: Seq<char>) -> Option<int> {
    last_index(hs, h, hs.len() as int)
}

pub(crate) proof fn lemma_last_index(hs: Seq<Seq<char>>, h: Seq<char>, n: int)
    requires
        0 <= n <= hs.len(),
    ensures
        match last_index(hs, h, n) {
            Some(i) => 0 <= i < n && hs[i] == h,
            None => true,
        },
    decreases n,
{
    if n > 0 {
        lemma_last_index(hs, h, n - 1);
    }
}

/// The position that stands for `h` among `hashes`, if present.
pub(crate) fn position_of(hashes: &Vec<String>, h: &str) -> (r: Option<usize>)
    ensures
        match index_in(hashes.deep_view(), h@) {
            Some(i) => r == Some(i as usize),
            None => r is None,
        },
{
    let ghost hs = hashes.deep_view();
    let hc = chars_of(h);
    let mut i: usize = hashes.len();
    while i > 0
        invariant
            i <= hashes.len(),
            hs == hashes.deep_view(),
            hc@ == h@,
            last_index(hs, h@, hs.len() as int) == last_index(hs, h@, i as int),
        decreases i,
    {
        if chars_eq(&chars_of(hashes[i - 1].as_str()), &hc) {
            return Some(i - 1);
        }
        i -= 1;
    }
    None
}

/// The classes after joining, in turn, the pairs whose two hashes are both
/// known.
pub open spec fn roots_after(hs: Seq<Seq<char>>, pairs: Seq<(Seq<char>, Seq<char>)>, k: int) -> Seq<int>
    decreases k,
{
    if k <= 0 {
        Seq::new(hs.len(), |i: int| i)
    } else {
        let r = roots_after(hs, pairs, k - 1);
        match (index_in(hs, pairs[k - 1].0), index_in(hs, pairs[k - 1].1)) {
            (Some(a), Some(b)) => joined(r, a, b),
            _ => r,
        }
    }
}

/// The ascending positions below `n` whose class is `r`.
pub open spec fn class_upto(rs: Seq<int>, r: int, n: int) -> Seq<int>
    decreases n,
{
    if n <= 0 {
        Seq::empty()
    } else {
        let p = class_upto(rs, r, n - 1);
        if rs[n - 1] == r {
            p.push(n - 1)
        } else {
            p
        }
    }
}

/// The members of class `r`, ascending.
pub open spec fn class_list(rs: Seq<int>, r: int) -> Seq<int> {
    class_upto(rs, r, rs.len() as int)
}

/// Component `a` is placed before `b`: larger first, then by the hash of
/// the first member, then by class.
pub open spec fn comes_before(a: Seq<int>, b: Seq<int>, hs: Seq<Seq<char>>, rs: Seq<int>) -> bool {
    a.len() > b.len() || (a.len() == b.len() && (lex_lt(hs[a[0]], hs[b[0]]) || (hs[a[0]] == hs[b[0]]
        && rs[a[0]] < rs[b[0]])))
}

/// The style communities of `n` tracks: every class of at least `min_size`
/// members, as its ascending member list, largest first.
pub open spec fn is_components(cs: Seq<Seq<int>>, rs: Seq<int>, hs: Seq<Seq<char>>, min_size: nat) -> bool {
    &&& forall|a: int| 0 <= a < cs.len() ==> (#[trigger] cs[a]).len() >= 1 && cs[a].len() >= min_size
        && cs[a] == class_list(rs, rs[cs[a][0]])
    &&& forall|i: int| 0 <= i < rs.len() && class_list(rs, rs[i]).len() >= min_size ==> exists|a: int|
        0 <= a < cs.len() && #[trigger] cs[a] == class_list(rs, rs[i])
    &&& forall|a: int, b: int| 0 <= a < b < cs.len() ==> comes_before(#[trigger] cs[a], #[trigger] cs[b], hs, rs)
}

proof fn lemma_class_upto(rs: Seq<int>, r: int, n: int)
    requires
        0 <= n <= rs.len(),
    ensures
        forall|t: int| 0 <= t < class_upto(rs, r, n).len() ==> 0 <= #[trigger] class_upto(rs, r, n)[t] < n
            && rs[class_upto(rs, r, n)[t]] == r,
        forall|t: int, u: int| 0 <= t < u < class_upto(rs, r, n).len() ==> #[trigger] class_upto(rs, r, n)[t]
            < #[trigger] class_upto(rs, r, n)[u],
        forall|i: int| 0 <= i < n && rs[i] == r ==> class_upto(rs, r, n).contains(i),
        class_upto(rs, r, n).len() <= n,
    decreases n,
{
    if n > 0 {
        lemma_class_upto(rs, r, n - 1);
        let p = class_upto(rs, r, n - 1);
        assert forall|i: int| 0 <= i < n && rs[i] == r implies class_upto(rs, r, n).contains(i) by {
            if i < n - 1 {
                let t = choose|t: int| 0 <= t < p.len() && p[t] == i;
                if rs[n - 1] == r {
                    assert(p.push(n - 1)[t] == i);
                }
            } else {
                assert(p.push(n - 1)[p.len() as int] == i);
            }
        }
    }
}

/// The placement order is total between components of different classes.
proof fn lemma_comes_before_total(a: Seq<int>, b: Seq<int>, hs: Seq<Seq<char>>, rs: Seq<int>)
    requires
        rs[a[0]] != rs[b[0]],
    ensures
        comes_before(a, b, hs, rs) || comes_before(b, a, hs, rs),
{
    lemma_lex_total(hs[a[0]], hs[b[0]]);
}

/// The placement order is transitive.
proof fn lemma_comes_before_transitive(a: Seq<int>, b: Seq<int>, c: Seq<int>, hs: Seq<Seq<char>>, rs: Seq<int>)
    requires
        comes_before(a, b, hs, rs),
        comes_before(b, c, hs, rs),
    ensures
        comes_before(a, c, hs, rs),
{
    if lex_lt(hs[a[0]], hs[b[0]]) && lex_lt(hs[b[0]], hs[c[0]]) {
        lemma_lex_transitive(hs[a[0]], hs[b[0]], hs[c[0]]);
    }
}

/// In a list sorted by the placement order, a component of a new class that
/// the entry at `p` does not precede is preceded by all entries from `p` on.
proof fn lemma_placed_before_rest(cs: Seq<Seq<int>>, m: Seq<int>, p: int, hs: Seq<Seq<char>>, rs: Seq<int>)
    requires
        0 <= p <= cs.len(),
        p < cs.len() ==> !comes_before(cs[p], m, hs, rs),
        forall|a: int, b: int| 0 <= a < b < cs.len() ==> comes_before(#[trigger] cs[a], #[trigger] cs[b], hs, rs),
        forall|a: int| 0 <= a < cs.len() ==> rs[(#[trigger] cs[a])[0]] != rs[m[0]],
    ensures
        forall|a: int| p <= a < cs.len() ==> comes_before(m, #[trigger] cs[a], hs, rs),
{
    if p < cs.len() {
        lemma_comes_before_total(cs[p], m, hs, rs);
        assert forall|a: int| p <= a < cs.len() implies comes_before(m, #[trigger] cs[a], hs, rs) by {
            if a > p {
                lemma_comes_before_transitive(m, cs[p], cs[a], hs, rs);
            }
        }
    }
}

/// The members of the class `r`, ascending.
fn class_members(roots: &Vec<usize>, r: usize) -> (m: Vec<usize>)
    ensures
        m@.map_values(|i: usize| i as int) == class_list(roots@.map_values(|x: usize| x as int), r as int),
{
    let ghost rs = roots@.map_values(|x: usize| x as int);
    let mut out: Vec<usize> = Vec::new();
    let mut i: usize = 0;
    while i < roots.len()
        invariant
            i <= roots.len(),
            rs == roots@.map_values(|x: usize| x as int),
            out@.map_values(|t: usize| t as int) == class_upto(rs, r as int, i as int),
        decreases roots.len() - i,
    {
        let ghost o0 = out@.map_values(|t: usize| t as int);
        if roots[i] == r {
            out.push(i);
            assert(out@.map_values(|t: usize| t as int) =~= o0.push(i as int));
        }
        i += 1;
    }
    out
}

/// Whether component `a` is placed before `b`.
fn comes_before_exec(a: &Vec<usize>, b: &Vec<usize>, hashes: &Vec<String>, roots: &Vec<usize>) -> (r: bool)
    requires
        a.len() >= 1,
        b.len() >= 1,
        a[0] < hashes.len(),
        b[0] < hashes.len(),
        a[0] < roots.len(),
        b[0] < roots.len(),
    ensures
        r == comes_before(
            a@.map_values(|i: usize| i as int),
            b@.map_values(|i: usize| i as int),
            hashes.deep_view(),
            roots@.map_values(|x: usize| x as int),
        ),
{
    let ghost av = a@.map_values(|i: usize| i as int);
    let ghost bv = b@.map_values(|i: usize| i as int);
    assert(av[0] == a[0] && bv[0] == b[0]);
    if a.len() != b.len() {
        return a.len() > b.len();
    }
    let ha = chars_of(hashes[a[0]].as_str());
    let hb = chars_of(hashes[b[0]].as_str());
    if chars_lt(&ha, &hb) {
        return true;
    }
    if !chars_eq(&ha, &hb) {
        return false;
    }
    roots[a[0]] < roots[b[0]]
}

/// The positions held in `s`.
pub open spec fn ints_of(s: Seq<usize>) -> Seq<int> {
    s.map_values(|t: usize| t as int)
}

/// The components held in `v`, each by its positions.
pub open spec fn comps_of(v: Seq<Vec<usize>>) -> Seq<Seq<int>> {
    Seq::new(v.len(), |a: int| ints_of(v[a]@))
}

/// `cs` holds, in placement order, exactly the large enough classes whose
/// first member is below `j`.
pub open spec fn components_upto(cs: Seq<Seq<int>>, rs: Seq<int>, hs: Seq<Seq<char>>, min_size: nat, j: int) -> bool {
    &&& forall|a: int| 0 <= a < cs.len() ==> (#[trigger] cs[a]).len() >= 1 && cs[a].len() >= min_size
        && cs[a] == class_list(rs, rs[cs[a][0]]) && cs[a][0] < j
    &&& forall|i: int| 0 <= i < j && class_list(rs, rs[i]).len() >= min_size ==> exists|a: int|
        0 <= a < cs.len() && #[trigger] cs[a] == class_list(rs, rs[i])
    &&& forall|a: int, b: int| 0 <= a < b < cs.len() ==> comes_before(#[trigger] cs[a], #[trigger] cs[b], hs, rs)
}

/// The first member of a class is its smallest.
proof fn lemma_first_is_least(rs: Seq<int>, i: int)
    requires
        0 <= i < rs.len(),
    ensures
        class_list(rs, rs[i]).len() >= 1,
        class_list(rs, rs[i])[0] <= i,
        rs[class_list(rs, rs[i])[0]] == rs[i],
        0 <= class_list(rs, rs[i])[0],
{
    let cl = class_list(rs, rs[i]);
    lemma_class_upto(rs, rs[i], rs.len() as int);
    let u = choose|u: int| 0 <= u < cl.len() && cl[u] == i;
    if u > 0 {
        assert(cl[0] < cl[u]);
    }
}

/// Placing a new class between the entries it follows and those it precedes
/// extends the list to the classes first met below `j + 1`.
proof fn lemma_insert_component(
    cs: Seq<Seq<int>>,
    m: Seq<int>,
    p: int,
    hs: Seq<Seq<char>>,
    rs: Seq<int>,
    min_size: nat,
    j: int,
)
    requires
        0 <= j < rs.len(),
        components_upto(cs, rs, hs, min_size, j),
        m == class_list(rs, rs[j]),
        m.len() >= 1,
        m[0] == j,
        m.len() >= min_size,
        0 <= p <= cs.len(),
        forall|a: int| 0 <= a < p ==> comes_before(#[trigger] cs[a], m, hs, rs),
        forall|a: int| p <= a < cs.len() ==> comes_before(m, #[trigger] cs[a], hs, rs),
    ensures
        components_upto(cs.insert(p, m), rs, hs, min_size, j + 1),
{
    let c2 = cs.insert(p, m);
    assert forall|a: int| 0 <= a < c2.len() implies (#[trigger] c2[a]).len() >= 1 && c2[a].len() >= min_size
        && c2[a] == class_list(rs, rs[c2[a][0]]) && c2[a][0] < j + 1 by {
        if a < p {
            assert(c2[a] == cs[a]);
        } else if a > p {
            assert(c2[a] == cs[a - 1]);
        }
    }
    assert forall|i: int| 0 <= i < j + 1 && class_list(rs, rs[i]).len() >= min_size implies exists|a: int|
        0 <= a < c2.len() && #[trigger] c2[a] == class_list(rs, rs[i]) by {
        if i < j {
            let a = choose|a: int| 0 <= a < cs.len() && #[trigger] cs[a] == class_list(rs, rs[i]);
            if a < p {
                assert(c2[a] == cs[a]);
            } else {
                assert(c2[a + 1] == cs[a]);
            }
        } else {
            assert(c2[p] == m);
        }
    }
    assert forall|a: int, b: int| 0 <= a < b < c2.len() implies comes_before(
        #[trigger] c2[a],
        #[trigger] c2[b],
        hs,
        rs,
    ) by {
        if b < p {
            assert(c2[a] == cs[a] && c2[b] == cs[b]);
        } else if b == p {
            assert(c2[a] == cs[a]);
        } else if a < p {
            assert(c2[a] == cs[a] && c2[b] == cs[b - 1]);
        } else if a == p {
            assert(c2[b] == cs[b - 1]);
        } else {
            assert(c2[a] == cs[a - 1] && c2[b] == cs[b - 1]);
        }
    }
}

/// A class whose first member is below `j`, or that is too small, adds
/// nothing at `j`.
proof fn lemma_skip_component(cs: Seq<Seq<int>>, hs: Seq<Seq<char>>, rs: Seq<int>, min_size: nat, j: int)
    requires
        0 <= j < rs.len(),
        components_upto(cs, rs, hs, min_size, j),
        !(class_list(rs, rs[j])[0] == j && class_list(rs, rs[j]).len() >= min_size),
    ensures
        components_upto(cs, rs, hs, min_size, j + 1),
{
    assert forall|i: int| 0 <= i < j + 1 && class_list(rs, rs[i]).len() >= min_size implies exists|a: int|
        0 <= a < cs.len() && #[trigger] cs[a] == class_list(rs, rs[i]) by {
        if i == j {
            lemma_first_is_least(rs, j);
            let f = class_list(rs, rs[j])[0];
            assert(class_list(rs, rs[f]) == class_list(rs, rs[j]));
        }
    }
}

/// The communities of the tracks with content hashes `hashes`, joined along
/// `pairs` of hashes (a pair naming an unknown hash is skipped; a hash that
/// occurs twice stands for its last position): the classes of at least
/// `min_size` tracks, each as its ascending positions, largest first, then
/// by the hash of the first member.
pub fn style_components(hashes: &Vec<String>, pairs: &Vec<(String, String)>, min_size: usize) -> (r: Vec<Vec<usize>>)
    ensures
        is_components(
            comps_of(r@),
            roots_after(hashes.deep_view(), crate::graph::pairs_view(pairs@), pairs.len() as int),
            hashes.deep_view(),
            min_size as nat,
        ),
{
    let ghost hs = hashes.deep_view();
    let ghost pv = crate::graph::pairs_view(pairs@);
    let n = hashes.len();
    let mut uf = UnionFind::new(n);
    assert(uf@ =~= roots_after(hs, pv, 0));
    let mut k: usize = 0;
    while k < pairs.len()
        invariant
            k <= pairs.len(),
            hs == hashes.deep_view(),
            pv == crate::graph::pairs_view(pairs@),
            n == hashes.len(),
            uf.wf(),
            uf@ == roots_after(hs, pv, k as int),
            uf@.len() == n,
        decreases pairs.len() - k,
    {
        assert(pv[k as int] == (pairs@[k as int].0@, pairs@[k as int].1@));
        let a = position_of(hashes, pairs[k].0.as_str());
        let b = position_of(hashes, pairs[k].1.as_str());
        proof {
            lemma_last_index(hs, pv[k as int].0, hs.len() as int);
            lemma_last_index(hs, pv[k as int].1, hs.len() as int);
        }
        match (a, b) {
            (Some(ia), Some(ib)) => {
                uf.union(ia, ib);
            },
            _ => {},
        }
        k += 1;
    }
    let ghost rs = uf@;
    let mut roots: Vec<usize> = Vec::new();
    let mut i: usize = 0;
    while i < n
        invariant
            i <= n,
            uf.wf(),
            uf@ == rs,
            rs.len() == n,
            ints_of(roots@) == rs.take(i as int),
        decreases n - i,
    {
        let ghost r0 = ints_of(roots@);
        let r = uf.find(i);
        roots.push(r);
        assert(ints_of(roots@) =~= r0.push(rs[i as int]));
        assert(rs.take(i as int + 1) =~= rs.take(i as int).push(rs[i as int]));
        i += 1;
    }
    assert(rs.take(n as int) =~= rs);
    let ghost rv = ints_of(roots@);
    let mut out: Vec<Vec<usize>> = Vec::new();
    assert(comps_of(out@) =~= Seq::<Seq<int>>::empty());
    let mut j: usize = 0;
    while j < n
        invariant
            j <= n,
            rv == ints_of(roots@),
            rv == rs,
            rv.len() == n,
            roots.len() == n,
            n == hashes.len(),
            hs == hashes.deep_view(),
            components_upto(comps_of(out@), rv, hs, min_size as nat, j as int),
            forall|a: int| 0 <= a < out.len() ==> (#[trigger] out@[a]).len() >= 1 && out@[a][0] < n,
        decreases n - j,
    {
        let ghost cs0 = comps_of(out@);
        let members = class_members(&roots, roots[j]);
        let ghost mv = ints_of(members@);
        proof {
            lemma_first_is_least(rv, j as int);
            assert(mv == class_list(rv, rv[j as int]));
        }
        if members[0] == j && members.len() >= min_size {
            let mut p: usize = 0;
            while p < out.len() && comes_before_exec(&out[p], &members, hashes, &roots)
                invariant
                    p <= out.len(),
                    cs0 == comps_of(out@),
                    forall|a: int| 0 <= a < out.len() ==> (#[trigger] out@[a]).len() >= 1 && out@[a][0] < n,
                    members.len() >= 1,
                    members[0] == j,
                    j < n,
                    n == hashes.len(),
                    roots.len() == n,
                    rv == ints_of(roots@),
                    hs == hashes.deep_view(),
                    mv == ints_of(members@),
                    forall|a: int| 0 <= a < p ==> comes_before(#[trigger] cs0[a], mv, hs, rv),
                decreases out.len() - p,
            {
                assert(cs0[p as int] == ints_of(out@[p as int]@));
                p += 1;
            }
            proof {
                if p < out.len() {
                    assert(cs0[p as int] == ints_of(out@[p as int]@));
                }
                assert forall|a: int| 0 <= a < cs0.len() implies rv[(#[trigger] cs0[a])[0]] != rv[mv[0]] by {
                    if rv[cs0[a][0]] == rv[mv[0]] {
                        assert(cs0[a] == mv);
                    }
                }
                lemma_placed_before_rest(cs0, mv, p as int, hs, rv);
                lemma_insert_component(cs0, mv, p as int, hs, rv, min_size as nat, j as int);
            }
            out.insert(p, members);
            assert(comps_of(out@) =~= cs0.insert(p as int, mv));
        } else {
            proof {
                lemma_skip_component(cs0, hs, rv, min_size as nat, j as int);
            }
        }
        j += 1;
    }
    out
}

/// Pair `p` links positions `x` and `y` of the hashes.
pub open spec fn links(hs: Seq<Seq<char>>, p: (Seq<char>, Seq<char>), x: int, y: int) -> bool {
    index_in(hs, p.0) == Some(x) && index_in(hs, p.1) == Some(y)
}

/// `rel` is an equivalence relation on `0..n`.
pub open spec fn is_equivalence_on(rel: spec_fn(int, int) -> bool, n: int) -> bool {
    &&& forall|i: int| 0 <= i < n ==> #[trigger] rel(i, i)
    &&& forall|i: int, j: int| 0 <= i < n && 0 <= j < n && #[trigger] rel(i, j) ==> rel(j, i)
    &&& forall|i: int, j: int, l: int|
        0 <= i < n && 0 <= j < n && 0 <= l < n && #[trigger] rel(i, j) && #[trigger] rel(j, l) ==> rel(i, l)
}

proof fn lemma_roots_len(hs: Seq<Seq<char>>, pairs: Seq<(Seq<char>, Seq<char>)>, k: int)
    requires
        0 <= k <= pairs.len(),
    ensures
        roots_after(hs, pairs, k).len() == hs.len(),
    decreases k,
{
    if k > 0 {
        lemma_roots_len(hs, pairs, k - 1);
    }
}

/// Every pair among the first `k` leaves its two tracks in one class.
proof fn lemma_pairs_joined(hs: Seq<Seq<char>>, pairs: Seq<(Seq<char>, Seq<char>)>, k: int, t: int, x: int, y: int)
    requires
        0 <= t < k <= pairs.len(),
        links(hs, pairs[t], x, y),
    ensures
        0 <= x < hs.len(),
        0 <= y < hs.len(),
        roots_after(hs, pairs, k)[x] == roots_after(hs, pairs, k)[y],
    decreases k,
{
    lemma_last_index(hs, pairs[t].0, hs.len() as int);
    lemma_last_index(hs, pairs[t].1, hs.len() as int);
    let r = roots_after(hs, pairs, k - 1);
    lemma_roots_len(hs, pairs, k - 1);
    if t < k - 1 {
        lemma_pairs_joined(hs, pairs, k - 1, t, x, y);
    }
    match (index_in(hs, pairs[k - 1].0), index_in(hs, pairs[k - 1].1)) {
        (Some(a), Some(b)) => {
            lemma_last_index(hs, pairs[k - 1].0, hs.len() as int);
            lemma_last_index(hs, pairs[k - 1].1, hs.len() as int);
            law_union_joins_exactly_two_classes(r, a, b, x, y);
        },
        _ => {},
    }
}

/// Two tracks in one class after the first `k` pairs are related by every
/// equivalence that relates the two tracks of each of those pairs.
proof fn lemma_roots_within(
    hs: Seq<Seq<char>>,
    pairs: Seq<(Seq<char>, Seq<char>)>,
    k: int,
    rel: spec_fn(int, int) -> bool,
    i: int,
    j: int,
)
    requires
        0 <= k <= pairs.len(),
        is_equivalence_on(rel, hs.len() as int),
        forall|t: int, x: int, y: int| 0 <= t < k && #[trigger] links(hs, pairs[t], x, y) ==> rel(x, y),
        0 <= i < hs.len(),
        0 <= j < hs.len(),
        roots_after(hs, pairs, k)[i] == roots_after(hs, pairs, k)[j],
    ensures
        rel(i, j),
    decreases k,
{
    if k == 0 {
        assert(rel(i, i));
    } else {
        let r = roots_after(hs, pairs, k - 1);
        lemma_roots_len(hs, pairs, k - 1);
        match (index_in(hs, pairs[k - 1].0), index_in(hs, pairs[k - 1].1)) {
            (Some(a), Some(b)) => {
                lemma_last_index(hs, pairs[k - 1].0, hs.len() as int);
                lemma_last_index(hs, pairs[k - 1].1, hs.len() as int);
                law_union_joins_exactly_two_classes(r, a, b, i, j);
                assert(links(hs, pairs[k - 1], a, b));
                assert(rel(a, b));
                if r[i] == r[j] {
                    lemma_roots_within(hs, pairs, k - 1, rel, i, j);
                } else if r[i] == r[a] && r[j] == r[b] {
                    lemma_roots_within(hs, pairs, k - 1, rel, i, a);
                    lemma_roots_within(hs, pairs, k - 1, rel, b, j);
                    assert(rel(i, b));
                } else {
                    lemma_roots_within(hs, pairs, k - 1, rel, i, b);
                    lemma_roots_within(hs, pairs, k - 1, rel, a, j);
                    assert(rel(b, a));
                    assert(rel(i, a));
                }
            },
            _ => {
                lemma_roots_within(hs, pairs, k - 1, rel, i, j);
            },
        }
    }
}

proof fn lemma_classes_follow_pairs(hs: Seq<Seq<char>>, p1: Seq<(Seq<char>, Seq<char>)>, p2: Seq<(Seq<char>, Seq<char>)>, i: int, j: int)
    requires
        forall|p: (Seq<char>, Seq<char>)| p1.contains(p) ==> p2.contains(p),
        0 <= i < hs.len(),
        0 <= j < hs.len(),
        roots_after(hs, p1, p1.len() as int)[i] == roots_after(hs, p1, p1.len() as int)[j],
    ensures
        roots_after(hs, p2, p2.len() as int)[i] == roots_after(hs, p2, p2.len() as int)[j],
{
    let r2 = roots_after(hs, p2, p2.len() as int);
    lemma_roots_len(hs, p2, p2.len() as int);
    let rel = |x: int, y: int| r2[x] == r2[y];
    assert(is_equivalence_on(rel, hs.len() as int));
    assert forall|t: int, x: int, y: int| 0 <= t < p1.len() && #[trigger] links(hs, p1[t], x, y) implies rel(x, y) by {
        assert(p1.contains(p1[t]));
        let u = choose|u: int| 0 <= u < p2.len() && p2[u] == p1[t];
        lemma_pairs_joined(hs, p2, p2.len() as int, u, x, y);
    }
    lemma_roots_within(hs, p1, p1.len() as int, rel, i, j);
}

/// The style classes depend on the set of similarity pairs alone: two pair
/// lists that hold the same pairs, in any order and with any repeats, put
/// exactly the same tracks together.
pub proof fn law_style_classes_order_independent(
    hs: Seq<Seq<char>>,
    p1: Seq<(Seq<char>, Seq<char>)>,
    p2: Seq<(Seq<char>, Seq<char>)>,
    i: int,
    j: int,
)
    requires
        forall|p: (Seq<char>, Seq<char>)| p1.contains(p) <==> p2.contains(p),
        0 <= i < hs.len(),
        0 <= j < hs.len(),
    ensures
        (roots_after(hs, p1, p1.len() as int)[i] == roots_after(hs, p1, p1.len() as int)[j])
            <==> (roots_after(hs, p2, p2.len() as int)[i] == roots_after(hs, p2, p2.len() as int)[j]),
{
    if roots_after(hs, p1, p1.len() as int)[i] == roots_after(hs, p1, p1.len() as int)[j] {
        lemma_classes_follow_pairs(hs, p1, p2, i, j);
    }
    if roots_after(hs, p2, p2.len() as int)[i] == roots_after(hs, p2, p2.len() as int)[j] {
        lemma_classes_follow_pairs(hs, p2, p1, i, j);
    }
}


/// The representatives after the unions of `edges[..k]`, starting from every
/// element of `0..n` in a class of its own (what [`UnionFind::new`] then
/// [`UnionFind::union`] on each edge give).
pub open spec fn unions_after(n: nat, edges: Seq<(int, int)>, k: int) -> Seq<int>
    decreases k,
{
    if k <= 0 {
        Seq::new(n, |i: int| i)
    } else {
        joined(unions_after(n, edges, k - 1), edges[k - 1].0, edges[k - 1].1)
    }
}

/// `rel` relates the two ends of every edge.
pub open spec fn joins_edges(rel: spec_fn(int, int) -> bool, edges: Seq<(int, int)>) -> bool {
    forall|t: int| 0 <= t < edges.len() ==> #[trigger] rel(edges[t].0, edges[t].1)
}

/// `x` and `y` are connected by the undirected edges: every equivalence on
/// `0..n` that relates the ends of each edge relates them.
pub open spec fn connected(n: nat, edges: Seq<(int, int)>, x: int, y: int) -> bool {
    forall|rel: spec_fn(int, int) -> bool|
        is_equivalence_on(rel, n as int) && joins_edges(rel, edges) ==> #[trigger] rel(x, y)
}

/// Every edge end lies in `0..n`.
pub open spec fn edges_within(n: nat, edges: Seq<(int, int)>) -> bool {
    forall|t: int| 0 <= t < edges.len() ==> 0 <= (#[trigger] edges[t]).0 < n && 0 <= edges[t].1 < n
}

proof fn lemma_unions_len(n: nat, edges: Seq<(int, int)>, k: int)
    requires
        0 <= k <= edges.len(),
    ensures
        unions_after(n, edges, k).len() == n,
    decreases k,
{
    if k > 0 {
        lemma_unions_len(n, edges, k - 1);
    }
}

/// Each of the first `k` edges leaves its ends in one class, and a class once
/// joined stays joined.
proof fn lemma_unions_join(n: nat, edges: Seq<(int, int)>, k: int, x: int, y: int)
    requires
        0 <= k <= edges.len(),
        edges_within(n, edges),
        0 <= x < n,
        0 <= y < n,
    ensures
        (exists|t: int| 0 <= t < k && edges[t] == (x, y)) ==> unions_after(n, edges, k)[x] == unions_after(
            n,
            edges,
            k,
        )[y],
        forall|j: int| 0 <= j <= k ==> (#[trigger] unions_after(n, edges, j))[x] == unions_after(n, edges, j)[y]
            ==> unions_after(n, edges, k)[x] == unions_after(n, edges, k)[y],
    decreases k,
{
    if k > 0 {
        lemma_unions_join(n, edges, k - 1, x, y);
        lemma_unions_len(n, edges, k - 1);
        let r = unions_after(n, edges, k - 1);
        let e = edges[k - 1];
        assert(0 <= e.0 < n && 0 <= e.1 < n);
        law_union_joins_exactly_two_classes(r, e.0, e.1, x, y);
        if exists|t: int| 0 <= t < k && edges[t] == (x, y) {
            let t = choose|t: int| 0 <= t < k && edges[t] == (x, y);
            if t < k - 1 {
                assert(exists|t: int| 0 <= t < k - 1 && edges[t] == (x, y));
            }
        }
    }
}

/// Two elements in one class after the first `k` unions are related by every
/// equivalence that relates the ends of each of those edges.
proof fn lemma_unions_within(
    n: nat,
    edges: Seq<(int, int)>,
    k: int,
    rel: spec_fn(int, int) -> bool,
    i: int,
    j: int,
)
    requires
        0 <= k <= edges.len(),
        edges_within(n, edges),
        is_equivalence_on(rel, n as int),
        forall|t: int| 0 <= t < k ==> #[trigger] rel(edges[t].0, edges[t].1),
        0 <= i < n,
        0 <= j < n,
        unions_after(n, edges, k)[i] == unions_after(n, edges, k)[j],
    ensures
        rel(i, j),
    decreases k,
{
    if k == 0 {
        assert(rel(i, i));
    } else {
        let r = unions_after(n, edges, k - 1);
        lemma_unions_len(n, edges, k - 1);
        let (a, b) = edges[k - 1];
        assert(0 <= a < n && 0 <= b < n);
        law_union_joins_exactly_two_classes(r, a, b, i, j);
        assert(rel(edges[k - 1].0, edges[k - 1].1));
        if r[i] == r[j] {
            lemma_unions_within(n, edges, k - 1, rel, i, j);
        } else if r[i] == r[a] && r[j] == r[b] {
            lemma_unions_within(n, edges, k - 1, rel, i, a);
            lemma_unions_within(n, edges, k - 1, rel, b, j);
            assert(rel(i, b));
        } else {
            lemma_unions_within(n, edges, k - 1, rel, i, b);
            lemma_unions_within(n, edges, k - 1, rel, a, j);
            assert(rel(b, a));
            assert(rel(i, a));
        }
    }
}

/// After a sequence of unions, two elements share a representative exactly
/// when the edges connect them; every representative is an element.
/// `UnionFind::new(n)` has the view `unions_after(n, edges, 0)`, each
/// `UnionFind::union(a, b)` on the next edge takes `unions_after(n, edges, k)`
/// to `unions_after(n, edges, k + 1)` (its `ensures` is that step), and
/// `UnionFind::find(x)` returns the view at `x`.
pub proof fn law_union_find_connectivity(n: nat, edges: Seq<(int, int)>, x: int, y: int)
    requires
        edges_within(n, edges),
        0 <= x < n,
        0 <= y < n,
    ensures
        unions_after(n, edges, edges.len() as int).len() == n,
        (unions_after(n, edges, edges.len() as int)[x] == unions_after(n, edges, edges.len() as int)[y])
            <==> connected(n, edges, x, y),
{
    let k = edges.len() as int;
    let rs = unions_after(n, edges, k);
    lemma_unions_len(n, edges, k);
    if rs[x] == rs[y] {
        assert forall|rel: spec_fn(int, int) -> bool|
            is_equivalence_on(rel, n as int) && joins_edges(rel, edges) implies #[trigger] rel(x, y) by {
            assert forall|t: int| 0 <= t < k implies #[trigger] rel(edges[t].0, edges[t].1) by {}
            lemma_unions_within(n, edges, k, rel, x, y);
        }
    }
    if connected(n, edges, x, y) {
        let same = |a: int, b: int| rs[a] == rs[b];
        assert(is_equivalence_on(same, n as int));
        assert forall|t: int| 0 <= t < edges.len() implies #[trigger] same(edges[t].0, edges[t].1) by {
            let (a, b) = edges[t];
            lemma_unions_join(n, edges, k, a, b);
            assert(exists|u: int| 0 <= u < k && edges[u] == (a, b));
        }
        assert(joins_edges(same, edges));
        assert(same(x, y));
    }
}

} // verus!
