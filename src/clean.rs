use vstd::prelude::*;
use crate::text::{
    is_ws, is_ws_char, trim, to_chars, from_chars, trim_bounds, lemma_trim_ends, lemma_trim_noop,
};

verus! {

pub open spec fn is_opener(c: char) -> bool {
    c == '(' || c == '[' || c == '{'
}

pub open spec fn closer_of(c: char) -> char {
    if c == '(' {
        ')'
    } else if c == '[' {
        ']'
    } else {
        '}'
    }
}

/// First index at or after `i` that holds `c`, or `s.len()` where there is none.
pub open spec fn find_from(s: Seq<char>, c: char, i: int) -> int
    decreases s.len() - i,
{
    if 0 <= i < s.len() {
        if s[i] == c {
            i
        } else {
            find_from(s, c, i + 1)
        }
    } else {
        s.len() as int
    }
}

pub proof fn lemma_find_from(s: Seq<char>, c: char, i: int)
    requires
        0 <= i,
    ensures
        i <= find_from(s, c, i) || i > s.len(),
        find_from(s, c, i) <= s.len(),
        find_from(s, c, i) < s.len() ==> s[find_from(s, c, i)] == c,
        forall|k: int| i <= k < find_from(s, c, i) ==> s[k] != c,
    decreases s.len() - i,
{
    if 0 <= i < s.len() && s[i] != c {
        lemma_find_from(s, c, i + 1);
    }
}

/// Whether position `i` opens a bracket that closes later in `s`.
pub open spec fn opens_at(s: Seq<char>, i: int) -> bool {
    is_opener(s[i]) && find_from(s, closer_of(s[i]), i + 1) < s.len()
}

/// The text of `s[i..]` with every bracketed phrase removed. A bracket runs from
/// an opener to the first matching closer after it; an opener without one stays.
pub open spec fn strip_from(s: Seq<char>, i: int) -> Seq<char>
    decreases s.len() - i,
    via strip_from_decreases
{
    if 0 <= i < s.len() {
        if opens_at(s, i) {
            strip_from(s, find_from(s, closer_of(s[i]), i + 1) + 1)
        } else {
            seq![s[i]] + strip_from(s, i + 1)
        }
    } else {
        Seq::empty()
    }
}

#[via_fn]
proof fn strip_from_decreases(s: Seq<char>, i: int) {
    if 0 <= i < s.len() && opens_at(s, i) {
        lemma_find_from(s, closer_of(s[i]), i + 1);
    }
}

/// The trimmed contents of each bracketed phrase of `s[i..]`, in order.
pub open spec fn notes_from(s: Seq<char>, i: int) -> Seq<Seq<char>>
    decreases s.len() - i,
    via notes_from_decreases
{
    if 0 <= i < s.len() {
        if opens_at(s, i) {
            let j = find_from(s, closer_of(s[i]), i + 1);
            seq![trim(s.subrange(i + 1, j))] + notes_from(s, j + 1)
        } else {
            notes_from(s, i + 1)
        }
    } else {
        Seq::empty()
    }
}

#[via_fn]
proof fn notes_from_decreases(s: Seq<char>, i: int) {
    if 0 <= i < s.len() && opens_at(s, i) {
        lemma_find_from(s, closer_of(s[i]), i + 1);
    }
}

pub open spec fn strip_brackets(s: Seq<char>) -> Seq<char> {
    strip_from(s, 0)
}

/// What the character at `i` becomes when runs of two or more whitespace
/// characters are collapsed into one space.
pub open spec fn collapse_char(s: Seq<char>, i: int) -> Seq<char> {
    if !is_ws(s[i]) {
        seq![s[i]]
    } else if i > 0 && is_ws(s[i - 1]) {
        Seq::empty()
    } else if i + 1 < s.len() && is_ws(s[i + 1]) {
        seq![' ']
    } else {
        seq![s[i]]
    }
}

pub open spec fn collapse_upto(s: Seq<char>, n: int) -> Seq<char>
    decreases n,
{
    if 0 < n <= s.len() {
        collapse_upto(s, n - 1) + collapse_char(s, n - 1)
    } else {
        Seq::empty()
    }
}

/// Trimmed, with each run of whitespace of length two or more made one space.
pub open spec fn squash(s: Seq<char>) -> Seq<char> {
    collapse_upto(trim(s), trim(s).len() as int)
}

pub open spec fn is_b(c: char) -> bool {
    c == 'b' || c == 'B'
}

pub open spec fn is_y(c: char) -> bool {
    c == 'y' || c == 'Y'
}

/// Length of the separator that ends `t`: a hyphen, an en or em dash, `::`, or
/// the word "by" in any case; 0 where none does.
pub open spec fn sep_len(t: Seq<char>) -> int {
    let n = t.len() as int;
    if n >= 1 && (t[n - 1] == '-' || t[n - 1] == '\u{2013}' || t[n - 1] == '\u{2014}') {
        1
    } else if n >= 2 && t[n - 2] == ':' && t[n - 1] == ':' {
        2
    } else if n >= 2 && is_b(t[n - 2]) && is_y(t[n - 1]) && (n == 2 || is_ws(t[n - 3])) {
        2
    } else {
        0
    }
}

/// `t` without its final separator and the one whitespace character before it.
pub open spec fn drop_sep(t: Seq<char>) -> Seq<char> {
    let u = t.subrange(0, t.len() - sep_len(t));
    if u.len() > 0 && is_ws(u.last()) {
        u.drop_last()
    } else {
        u
    }
}

/// `t` with trailing separators removed until none is left.
pub open spec fn strip_trailing(t: Seq<char>) -> Seq<char>
    decreases t.len(),
{
    if sep_len(t) > 0 {
        strip_trailing(drop_sep(t))
    } else {
        t
    }
}

/// The cleaned form of a tag value: bracketed phrases removed, whitespace
/// squashed, trailing separators removed.
pub open spec fn clean(s: Seq<char>) -> Seq<char> {
    strip_trailing(squash(strip_brackets(s)))
}

/// The trimmed contents of the bracketed phrases of `s`, in order.
pub open spec fn bracket_notes(s: Seq<char>) -> Seq<Seq<char>> {
    notes_from(s, 0)
}

pub open spec fn views(v: Seq<String>) -> Seq<Seq<char>> {
    v.map_values(|x: String| x@)
}

fn is_opener_char(c: char) -> (r: bool)
    ensures
        r == is_opener(c),
{
    c == '(' || c == '[' || c == '{'
}

fn closer_char(c: char) -> (r: char)
    ensures
        r == closer_of(c),
{
    if c == '(' {
        ')'
    } else if c == '[' {
        ']'
    } else {
        '}'
    }
}

/// Removes bracketed phrases; returns the rest and the phrases' trimmed contents.
fn strip_brackets_chars(cs: &Vec<char>) -> (r: (Vec<char>, Vec<String>))
    ensures
        r.0@ == strip_brackets(cs@),
        views(r.1@) == bracket_notes(cs@),
{
    let n = cs.len();
    let mut out: Vec<char> = Vec::new();
    let mut notes: Vec<String> = Vec::new();
    let mut i: usize = 0;
    while i < n
        invariant
            n == cs.len(),
            i <= n,
            strip_from(cs@, 0) == out@ + strip_from(cs@, i as int),
            notes_from(cs@, 0) == views(notes@) + notes_from(cs@, i as int),
        decreases n - i,
    {
        let c = cs[i];
        let mut j: usize = n;
        if is_opener_char(c) {
            let cl = closer_char(c);
            j = i + 1;
            while j < n && cs[j] != cl
                invariant
                    i < j <= n,
                    n == cs.len(),
                    find_from(cs@, cl, i + 1) == find_from(cs@, cl, j as int),
                decreases n - j,
            {
                j = j + 1;
            }
        }
        if j < n {
            proof {
                lemma_find_from(cs@, closer_of(c), i + 1);
            }
            let (a, b) = trim_bounds(cs, i + 1, j);
            let note = from_chars(cs, a, b);
            proof {
                assert(views(notes@.push(note)) =~= views(notes@).push(note@));
            }
            notes.push(note);
            i = j + 1;
        } else {
            proof {
                if is_opener(c) {
                    assert(find_from(cs@, closer_of(c), j as int) == n);
                }
                assert(!opens_at(cs@, i as int));
            }
            out.push(c);
            i = i + 1;
        }
    }
    proof {
        assert(out@ + strip_from(cs@, i as int) =~= out@);
        assert(views(notes@) + notes_from(cs@, i as int) =~= views(notes@));
    }
    (out, notes)
}

/// Squashes whitespace in `cs`: trims it, then collapses runs of two or more.
fn squash_chars(cs: &Vec<char>) -> (r: Vec<char>)
    ensures
        r@ == squash(cs@),
{
    let (a, b) = trim_bounds(cs, 0, cs.len());
    let ghost t = cs@.subrange(a as int, b as int);
    proof {
        assert(cs@.subrange(0, cs@.len() as int) =~= cs@);
    }
    let mut out: Vec<char> = Vec::new();
    let mut k: usize = a;
    while k < b
        invariant
            a <= k <= b <= cs.len(),
            t == cs@.subrange(a as int, b as int),
            t == trim(cs@),
            out@ == collapse_upto(t, k - a),
        decreases b - k,
    {
        let c = cs[k];
        if !is_ws_char(c) {
            out.push(c);
        } else if k > a && is_ws_char(cs[k - 1]) {
        } else if k + 1 < b && is_ws_char(cs[k + 1]) {
            out.push(' ');
        } else {
            out.push(c);
        }
        proof {
            assert(t[k - a] == c);
            if k > a {
                assert(t[k - a - 1] == cs@[k - 1]);
            }
            if k + 1 < b {
                assert(t[k - a + 1] == cs@[k + 1]);
            }
            assert(collapse_upto(t, k - a + 1) == collapse_upto(t, k - a) + collapse_char(
                t,
                k - a,
            ));
            assert(out@ =~= collapse_upto(t, k - a + 1));
        }
        k = k + 1;
    }
    out
}

/// `sep_len` of `v[0..n]`.
fn sep_len_prefix(v: &Vec<char>, n: usize) -> (r: usize)
    requires
        n <= v.len(),
    ensures
        r == sep_len(v@.subrange(0, n as int)),
{
    let ghost t = v@.subrange(0, n as int);
    if n >= 1 && (v[n - 1] == '-' || v[n - 1] == '\u{2013}' || v[n - 1] == '\u{2014}') {
        assert(t[n - 1] == v@[n - 1]);
        1
    } else if n >= 2 && v[n - 2] == ':' && v[n - 1] == ':' {
        assert(t[n - 1] == v@[n - 1] && t[n - 2] == v@[n - 2]);
        2
    } else if n >= 2 && (v[n - 2] == 'b' || v[n - 2] == 'B') && (v[n - 1] == 'y' || v[n - 1]
        == 'Y') && (n == 2 || is_ws_char(v[n - 3])) {
        assert(t[n - 1] == v@[n - 1] && t[n - 2] == v@[n - 2]);
        if n > 2 {
            assert(t[n - 3] == v@[n - 3]);
        }
        2
    } else {
        proof {
            if n >= 1 {
                assert(t[n - 1] == v@[n - 1]);
            }
            if n >= 2 {
                assert(t[n - 2] == v@[n - 2]);
            }
            if n >= 3 {
                assert(t[n - 3] == v@[n - 3]);
            }
        }
        0
    }
}

/// Length of `strip_trailing(v)`, which is a prefix of `v`.
fn strip_trailing_len(v: &Vec<char>) -> (r: usize)
    ensures
        r <= v.len(),
        v@.subrange(0, r as int) == strip_trailing(v@),
{
    let mut n = v.len();
    proof {
        assert(v@.subrange(0, n as int) =~= v@);
    }
    loop
        invariant
            n <= v.len(),
            strip_trailing(v@) == strip_trailing(v@.subrange(0, n as int)),
        decreases n,
    {
        let k = sep_len_prefix(v, n);
        if k == 0 {
            return n;
        }
        let ghost t = v@.subrange(0, n as int);
        let mut m = n - k;
        if m > 0 && is_ws_char(v[m - 1]) {
            m = m - 1;
        }
        proof {
            let u = t.subrange(0, t.len() - sep_len(t));
            assert(u =~= v@.subrange(0, (n - k) as int));
            if n - k > 0 {
                assert(u.last() == v@[n - k - 1]);
                assert(u.drop_last() =~= v@.subrange(0, (n - k - 1) as int));
            }
            assert(drop_sep(t) =~= v@.subrange(0, m as int));
        }
        n = m;
    }
}

/// Cleans a tag value: the cleaned text, and the trimmed contents of every
/// bracketed phrase that was removed, in order.
pub fn clean_metadata(text: &String) -> (r: (String, Vec<String>))
    ensures
        r.0@ == clean(text@),
        views(r.1@) == bracket_notes(text@),
{
    let cs = to_chars(text.as_str());
    let (stripped, notes) = strip_brackets_chars(&cs);
    let squashed = squash_chars(&stripped);
    let n = strip_trailing_len(&squashed);
    (from_chars(&squashed, 0, n), notes)
}

/// No opener in `x` is followed, anywhere later, by its closer.
pub open spec fn no_pairs(x: Seq<char>) -> bool {
    forall|i: int, j: int|
        0 <= i < j < x.len() && is_opener(#[trigger] x[i]) ==> #[trigger] x[j] != closer_of(x[i])
}

/// No whitespace at either end, and no two whitespace characters in a row.
pub open spec fn squashed(x: Seq<char>) -> bool {
    &&& (x.len() > 0 ==> !is_ws(x[0]) && !is_ws(x.last()))
    &&& forall|i: int| 0 < i < x.len() ==> !(is_ws(x[i - 1]) && is_ws(#[trigger] x[i]))
}

proof fn lemma_strip_from_chars(s: Seq<char>, i: int)
    requires
        0 <= i,
    ensures
        forall|k: int|
            0 <= k < strip_from(s, i).len() ==> s.subrange(i, s.len() as int).contains(
                #[trigger] strip_from(s, i)[k],
            ),
    decreases s.len() - i,
{
    if 0 <= i < s.len() {
        let out = strip_from(s, i);
        if opens_at(s, i) {
            let j = find_from(s, closer_of(s[i]), i + 1);
            lemma_find_from(s, closer_of(s[i]), i + 1);
            lemma_strip_from_chars(s, j + 1);
            assert forall|k: int| 0 <= k < out.len() implies s.subrange(i, s.len() as int).contains(
                #[trigger] out[k],
            ) by {
                assert(out == strip_from(s, j + 1));
                assert(s.subrange(j + 1, s.len() as int).contains(out[k]));
                {
                    let m = choose|m: int|
                        0 <= m < s.len() - (j + 1) && #[trigger] s.subrange(j + 1, s.len() as int)[m]
                            == out[k];
                    assert(s.subrange(i, s.len() as int)[m + j + 1 - i] == out[k]);
                }
            }
        } else {
            lemma_strip_from_chars(s, i + 1);
            let rest = strip_from(s, i + 1);
            assert forall|k: int| 0 <= k < out.len() implies s.subrange(i, s.len() as int).contains(
                #[trigger] out[k],
            ) by {
                if k == 0 {
                    assert(s.subrange(i, s.len() as int)[0] == out[k]);
                } else {
                    assert(out[k] == rest[k - 1]);
                    assert(s.subrange(i + 1, s.len() as int).contains(rest[k - 1]));
                    let m = choose|m: int|
                        0 <= m < s.len() - (i + 1) && #[trigger] s.subrange(i + 1, s.len() as int)[m]
                            == rest[k - 1];
                    assert(s.subrange(i, s.len() as int)[m + 1] == out[k]);
                }
            }
        }
    }
}

proof fn lemma_strip_from_no_pairs(s: Seq<char>, i: int)
    requires
        0 <= i,
    ensures
        no_pairs(strip_from(s, i)),
    decreases s.len() - i,
{
    if 0 <= i < s.len() {
        if opens_at(s, i) {
            lemma_find_from(s, closer_of(s[i]), i + 1);
            lemma_strip_from_no_pairs(s, find_from(s, closer_of(s[i]), i + 1) + 1);
        } else {
            lemma_strip_from_no_pairs(s, i + 1);
            lemma_strip_from_chars(s, i + 1);
            lemma_find_from(s, closer_of(s[i]), i + 1);
            let out = strip_from(s, i);
            let rest = strip_from(s, i + 1);
            assert forall|a: int, b: int|
                0 <= a < b < out.len() && is_opener(#[trigger] out[a]) implies #[trigger] out[b]
                != closer_of(out[a]) by {
                if a == 0 {
                    assert(out[b] == rest[b - 1]);
                    assert(s.subrange(i + 1, s.len() as int).contains(rest[b - 1]));
                    let m = choose|m: int|
                        0 <= m < s.len() - (i + 1) && #[trigger] s.subrange(i + 1, s.len() as int)[m]
                            == rest[b - 1];
                    assert(s[m + i + 1] == out[b]);
                } else {
                    assert(out[a] == rest[a - 1] && out[b] == rest[b - 1]);
                }
            }
        }
    }
}

proof fn lemma_strip_from_noop(x: Seq<char>, i: int)
    requires
        0 <= i <= x.len(),
        no_pairs(x),
    ensures
        strip_from(x, i) == x.subrange(i, x.len() as int),
    decreases x.len() - i,
{
    if i < x.len() {
        lemma_find_from(x, closer_of(x[i]), i + 1);
        let j = find_from(x, closer_of(x[i]), i + 1);
        if opens_at(x, i) {
            assert(x[j] == closer_of(x[i]));
        }
        lemma_strip_from_noop(x, i + 1);
        assert(seq![x[i]] + x.subrange(i + 1, x.len() as int) =~= x.subrange(i, x.len() as int));
    } else {
        assert(x.subrange(i, x.len() as int) =~= Seq::<char>::empty());
    }
}

proof fn lemma_no_pairs_subrange(x: Seq<char>, a: int, b: int)
    requires
        no_pairs(x),
        0 <= a <= b <= x.len(),
    ensures
        no_pairs(x.subrange(a, b)),
{
    let y = x.subrange(a, b);
    assert forall|i: int, j: int|
        0 <= i < j < y.len() && is_opener(#[trigger] y[i]) implies #[trigger] y[j] != closer_of(
        y[i],
    ) by {
        assert(y[i] == x[i + a] && y[j] == x[j + a]);
    }
}

proof fn lemma_trim_no_pairs(x: Seq<char>)
    requires
        no_pairs(x),
    ensures
        no_pairs(trim(x)),
{
    crate::text::lemma_trail_ws(x);
    let t = x.subrange(0, x.len() - crate::text::trail_ws(x));
    lemma_no_pairs_subrange(x, 0, x.len() - crate::text::trail_ws(x));
    crate::text::lemma_lead_ws(t);
    lemma_no_pairs_subrange(t, crate::text::lead_ws(t), t.len() as int);
}

proof fn lemma_collapse_no_pairs(t: Seq<char>, n: int)
    requires
        no_pairs(t),
        0 <= n <= t.len(),
    ensures
        no_pairs(collapse_upto(t, n)),
        forall|k: int|
            0 <= k < collapse_upto(t, n).len() ==> #[trigger] collapse_upto(t, n)[k] == ' '
                || t.subrange(0, n).contains(collapse_upto(t, n)[k]),
    decreases n,
{
    if n > 0 {
        lemma_collapse_no_pairs(t, n - 1);
        let prev = collapse_upto(t, n - 1);
        let out = collapse_upto(t, n);
        let c = collapse_char(t, n - 1);
        assert(out == prev + c);
        assert forall|k: int| 0 <= k < out.len() implies #[trigger] out[k] == ' ' || t.subrange(
            0,
            n,
        ).contains(out[k]) by {
            if k < prev.len() {
                assert(out[k] == prev[k]);
                if prev[k] != ' ' {
                    let m = choose|m: int| 0 <= m < n - 1 && #[trigger] t.subrange(0, n - 1)[m] == prev[k];
                    assert(t.subrange(0, n)[m] == out[k]);
                }
            } else {
                assert(out[k] == c[k - prev.len()]);
                if out[k] != ' ' {
                    assert(t.subrange(0, n)[n - 1] == out[k]);
                }
            }
        }
        assert forall|a: int, b: int|
            0 <= a < b < out.len() && is_opener(#[trigger] out[a]) implies #[trigger] out[b]
            != closer_of(out[a]) by {
            if b < prev.len() {
                assert(out[a] == prev[a] && out[b] == prev[b]);
            } else {
                assert(out[a] == prev[a]);
                assert(out[b] == c[b - prev.len()]);
                if out[b] != ' ' {
                    assert(out[b] == t[n - 1]);
                    let m = choose|m: int| 0 <= m < n - 1 && #[trigger] t.subrange(0, n - 1)[m] == prev[a];
                    assert(t[m] == out[a]);
                }
            }
        }
    }
}

proof fn lemma_collapse_squashed(t: Seq<char>, n: int)
    requires
        t.len() > 0 ==> !is_ws(t[0]) && !is_ws(t.last()),
        1 <= n <= t.len(),
    ensures
        collapse_upto(t, n).len() > 0,
        !is_ws(collapse_upto(t, n)[0]),
        is_ws(collapse_upto(t, n).last()) <==> is_ws(t[n - 1]),
        forall|i: int|
            0 < i < collapse_upto(t, n).len() ==> !(is_ws(collapse_upto(t, n)[i - 1]) && is_ws(
                #[trigger] collapse_upto(t, n)[i],
            )),
    decreases n,
{
    let out = collapse_upto(t, n);
    if n == 1 {
        assert(collapse_upto(t, 0) =~= Seq::<char>::empty());
        assert(out =~= seq![t[0]]);
    } else {
        lemma_collapse_squashed(t, n - 1);
        let prev = collapse_upto(t, n - 1);
        let c = collapse_char(t, n - 1);
        assert(out == prev + c);
        assert(out[0] == prev[0]);
        assert forall|i: int| 0 < i < out.len() implies !(is_ws(out[i - 1]) && is_ws(
            #[trigger] out[i],
        )) by {
            if i < prev.len() {
                assert(out[i - 1] == prev[i - 1] && out[i] == prev[i]);
            } else {
                assert(out[i - 1] == prev.last());
            }
        }
    }
}

proof fn lemma_collapse_noop(x: Seq<char>, n: int)
    requires
        squashed(x),
        0 <= n <= x.len(),
    ensures
        collapse_upto(x, n) == x.subrange(0, n),
    decreases n,
{
    if n > 0 {
        lemma_collapse_noop(x, n - 1);
        if is_ws(x[n - 1]) {
            assert(n - 1 > 0);
            assert(!is_ws(x[n - 2]));
            if n < x.len() {
                assert(!is_ws(x[n]));
            }
        }
        assert(collapse_char(x, n - 1) =~= seq![x[n - 1]]);
        assert(x.subrange(0, n - 1).push(x[n - 1]) =~= x.subrange(0, n));
    } else {
        assert(x.subrange(0, 0) =~= Seq::<char>::empty());
    }
}

proof fn lemma_squash_props(x: Seq<char>)
    requires
        no_pairs(x),
    ensures
        no_pairs(squash(x)),
        squashed(squash(x)),
{
    lemma_trim_no_pairs(x);
    lemma_trim_ends(x);
    let t = trim(x);
    lemma_collapse_no_pairs(t, t.len() as int);
    if t.len() > 0 {
        lemma_collapse_squashed(t, t.len() as int);
    }
}

proof fn lemma_squash_noop(x: Seq<char>)
    requires
        squashed(x),
    ensures
        squash(x) == x,
{
    lemma_trim_noop(x);
    lemma_collapse_noop(x, x.len() as int);
    assert(x.subrange(0, x.len() as int) =~= x);
}

proof fn lemma_strip_trailing_props(x: Seq<char>)
    requires
        squashed(x),
    ensures
        strip_trailing(x).len() <= x.len(),
        strip_trailing(x) == x.subrange(0, strip_trailing(x).len() as int),
        squashed(strip_trailing(x)),
        sep_len(strip_trailing(x)) == 0,
    decreases x.len(),
{
    if sep_len(x) > 0 {
        let u = x.subrange(0, x.len() - sep_len(x));
        let d = drop_sep(x);
        assert(d == x.subrange(0, d.len() as int)) by {
            if u.len() > 0 && is_ws(u.last()) {
                assert(d =~= x.subrange(0, u.len() - 1));
            } else {
                assert(d =~= x.subrange(0, u.len() as int));
            }
        }
        assert(squashed(d)) by {
            if d.len() > 0 {
                assert(d[0] == x[0]);
                assert(d.last() == x[d.len() - 1]);
                if u.len() > 0 && is_ws(u.last()) {
                    assert(u.last() == x[d.len() as int]);
                }
            }
            assert forall|i: int| 0 < i < d.len() implies !(is_ws(d[i - 1]) && is_ws(
                #[trigger] d[i],
            )) by {
                assert(d[i - 1] == x[i - 1] && d[i] == x[i]);
            }
        }
        lemma_strip_trailing_props(d);
        let r = strip_trailing(x);
        assert(r == strip_trailing(d));
        assert(r =~= x.subrange(0, r.len() as int));
    } else {
        assert(x.subrange(0, x.len() as int) =~= x);
    }
}

proof fn lemma_prefix_no_pairs(x: Seq<char>, p: Seq<char>)
    requires
        no_pairs(x),
        p.len() <= x.len(),
        p == x.subrange(0, p.len() as int),
    ensures
        no_pairs(p),
{
    lemma_no_pairs_subrange(x, 0, p.len() as int);
}

/// Cleaning a cleaned value changes nothing: `clean(clean(s)) == clean(s)`.
pub proof fn lemma_clean_idempotent(s: Seq<char>)
    ensures
        clean(clean(s)) == clean(s),
{
    let b = strip_brackets(s);
    lemma_strip_from_no_pairs(s, 0);
    lemma_squash_props(b);
    let q = squash(b);
    lemma_strip_trailing_props(q);
    let u = strip_trailing(q);
    lemma_prefix_no_pairs(q, u);
    lemma_strip_from_noop(u, 0);
    assert(u.subrange(0, u.len() as int) =~= u);
    lemma_squash_noop(u);
}

} // verus!
