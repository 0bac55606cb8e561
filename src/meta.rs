use vstd::prelude::*;
use crate::clean::{clean, bracket_notes, clean_metadata, views};
use crate::dramatized::{reads_dramatized, is_dramatized};
use crate::model::{FileScanCache, FileScanCacheView};
use crate::order::{disc_order, capture_disc_order, is_digit, digits_value};
use crate::clean::find_from;
use crate::text::{to_chars, from_chars};

verus! {

/// The texts of `v` joined with `sep` between them.
pub open spec fn join(v: Seq<Seq<char>>, sep: Seq<char>) -> Seq<char>
    decreases v.len(),
{
    if v.len() == 0 {
        Seq::empty()
    } else if v.len() == 1 {
        v[0]
    } else {
        join(v.drop_last(), sep) + sep + v.last()
    }
}

/// Annotations added to earlier ones: comma-joined, after ` | ` where some exist.
pub open spec fn add_notes(prior: Option<Seq<char>>, notes: Seq<Seq<char>>) -> Option<Seq<char>> {
    if notes.len() == 0 {
        prior
    } else {
        match prior {
            Some(p) => Some(p + seq![' ', '|', ' '] + join(notes, seq![','])),
            None => Some(join(notes, seq![','])),
        }
    }
}

pub open spec fn as_i64(o: Option<int>) -> Option<i64> {
    match o {
        Some(v) => Some(v as i64),
        None => None,
    }
}

/// The record after its series is cleaned.
pub open spec fn series_step(m: FileScanCacheView) -> FileScanCacheView {
    match m.series {
        None => m,
        Some(s) => FileScanCacheView {
            dramatized: m.dramatized || reads_dramatized(s),
            disc_number: as_i64(disc_order(s)),
            clean_series: Some(clean(s)),
            extracts: add_notes(m.extracts, bracket_notes(s)),
            ..m
        },
    }
}

/// The record after its author is cleaned; an author that cleans to nothing stays.
pub open spec fn author_step(m: FileScanCacheView) -> FileScanCacheView {
    match m.author {
        None => m,
        Some(a) => FileScanCacheView {
            dramatized: m.dramatized || reads_dramatized(a),
            author: if clean(a).len() > 0 {
                Some(clean(a))
            } else {
                m.author
            },
            ..m
        },
    }
}

/// The record after its title is cleaned into `clean_title`.
pub open spec fn title_step(m: FileScanCacheView) -> FileScanCacheView {
    match m.title {
        None => m,
        Some(t) => FileScanCacheView {
            clean_title: Some(clean(t)),
            extracts: add_notes(m.extracts, bracket_notes(t)),
            ..m
        },
    }
}

/// Joins `v` with a comma.
fn join_commas(v: &Vec<String>) -> (r: Vec<char>)
    requires
        v.len() > 0,
    ensures
        r@ == join(views(v@), seq![',']),
{
    let mut out = to_chars(v[0].as_str());
    let mut i: usize = 1;
    proof {
        assert(views(v@).subrange(0, 1) =~= seq![v@[0]@]);
    }
    while i < v.len()
        invariant
            1 <= i <= v.len(),
            out@ == join(views(v@).subrange(0, i as int), seq![',']),
        decreases v.len() - i,
    {
        let mut next = to_chars(v[i].as_str());
        proof {
            let w = views(v@).subrange(0, i + 1);
            assert(w.drop_last() =~= views(v@).subrange(0, i as int));
            assert(w.last() == v@[i as int]@);
        }
        out.push(',');
        out.append(&mut next);
        i = i + 1;
    }
    proof {
        assert(views(v@).subrange(0, v.len() as int) =~= views(v@));
    }
    out
}

/// `add_notes` on values.
fn extend_notes(prior: &Option<String>, notes: &Vec<String>) -> (r: Option<String>)
    ensures
        crate::model::opt_view(r) == add_notes(crate::model::opt_view(*prior), views(notes@)),
{
    if notes.len() == 0 {
        return prior.clone();
    }
    let mut joined = join_commas(notes);
    match prior {
        Some(p) => {
            let mut out = to_chars(p.as_str());
            out.push(' ');
            out.push('|');
            out.push(' ');
            out.append(&mut joined);
            proof {
                assert(out@ =~= p@ + seq![' ', '|', ' '] + join(views(notes@), seq![',']));
            }
            Some(from_chars(&out, 0, out.len()))
        },
        None => {
            proof {
                assert(joined@.subrange(0, joined@.len() as int) =~= joined@);
            }
            Some(from_chars(&joined, 0, joined.len()))
        },
    }
}

/// Cleans the series: sets the clean series, the disc number and the dramatized
/// flag, and adds the bracketed phrases to the annotations.
pub fn series_cleanup(metadata: &mut FileScanCache)
    ensures
        final(metadata)@ == series_step(old(metadata)@),
{
    if let Some(series) = &metadata.series {
        let series = series.clone();
        let dramatized = is_dramatized(&series);
        let disc = capture_disc_order(series.as_str());
        let (clean_series, notes) = clean_metadata(&series);
        let extracts = extend_notes(&metadata.extracts, &notes);
        metadata.dramatized = metadata.dramatized || dramatized;
        metadata.disc_number = disc;
        metadata.clean_series = Some(clean_series);
        metadata.extracts = extracts;
    }
}

/// Cleans the author and sets the dramatized flag.
pub fn author_cleanup(metadata: &mut FileScanCache)
    ensures
        final(metadata)@ == author_step(old(metadata)@),
{
    if let Some(author) = &metadata.author {
        let author = author.clone();
        let dramatized = is_dramatized(&author);
        let (clean_author, _notes) = clean_metadata(&author);
        metadata.dramatized = metadata.dramatized || dramatized;
        if to_chars(clean_author.as_str()).len() > 0 {
            metadata.author = Some(clean_author);
        }
    }
}

/// Cleans the title into the clean title and adds its bracketed phrases to the
/// annotations.
pub fn title_cleanup(metadata: &mut FileScanCache)
    ensures
        final(metadata)@ == title_step(old(metadata)@),
{
    if let Some(title) = &metadata.title {
        let title = title.clone();
        let (clean_title, notes) = clean_metadata(&title);
        let extracts = extend_notes(&metadata.extracts, &notes);
        metadata.clean_title = Some(clean_title);
        metadata.extracts = extracts;
    }
}

/// Normalizes a freshly probed record: series, then author, then title.
pub fn meta_cleanup(metadata: &mut FileScanCache)
    ensures
        final(metadata)@ == title_step(author_step(series_step(old(metadata)@))),
{
    series_cleanup(metadata);
    author_cleanup(metadata);
    title_cleanup(metadata);
}

/// The part of a file name before its first `.`.
pub open spec fn stem(name: Seq<char>) -> Seq<char> {
    name.subrange(0, find_from(name, '.', 0))
}

/// `s` reads as an `i64`: an optional sign, then one or more ASCII digits, within range.
pub open spec fn is_i64_text(s: Seq<char>) -> bool {
    let d = s.subrange(sign_len(s), s.len() as int);
    &&& d.len() > 0
    &&& forall|k: int| 0 <= k < d.len() ==> is_digit(#[trigger] d[k])
    &&& digits_value(d, 0, d.len() as int) <= i64_limit(s)
}

pub open spec fn sign_len(s: Seq<char>) -> int {
    if s.len() > 0 && (s[0] == '-' || s[0] == '+') {
        1
    } else {
        0
    }
}

pub open spec fn i64_limit(s: Seq<char>) -> int {
    if s.len() > 0 && s[0] == '-' {
        0x8000_0000_0000_0000
    } else {
        0x7fff_ffff_ffff_ffff
    }
}

/// The record after an empty title is filled: from the file-name stem where that
/// is not a number, and then from the series where the title is still missing.
pub open spec fn title_fill_step(m: FileScanCacheView) -> FileScanCacheView {
    let empty = m.title is None || m.title == Some(Seq::<char>::empty());
    let m1 = if empty && !is_i64_text(stem(m.file_name)) {
        FileScanCacheView { title: Some(stem(m.file_name)), ..m }
    } else {
        m
    };
    if m1.title is None || (m1.title == Some(Seq::<char>::empty()) && m1.series is Some) {
        FileScanCacheView { title: m1.series, ..m1 }
    } else {
        m1
    }
}

proof fn lemma_digits_value_step(s: Seq<char>, n: int)
    requires
        0 <= n < s.len(),
    ensures
        digits_value(s, 0, n + 1) == digits_value(s, 0, n) * 10 + (s[n] as u32 - '0' as u32),
{
}

proof fn lemma_digits_value_grows(s: Seq<char>, a: int, b: int)
    requires
        0 <= a <= b <= s.len(),
        forall|k: int| 0 <= k < s.len() ==> is_digit(#[trigger] s[k]),
    ensures
        digits_value(s, 0, a) <= digits_value(s, 0, b),
        0 <= digits_value(s, 0, a),
    decreases b - a,
{
    if a < b {
        lemma_digits_value_grows(s, a, b - 1);
        assert(is_digit(s[b - 1]));
    } else {
        lemma_nonneg(s, a);
    }
}

proof fn lemma_nonneg(s: Seq<char>, a: int)
    requires
        0 <= a <= s.len(),
        forall|k: int| 0 <= k < s.len() ==> is_digit(#[trigger] s[k]),
    ensures
        0 <= digits_value(s, 0, a),
    decreases a,
{
    if a > 0 {
        lemma_nonneg(s, a - 1);
        assert(is_digit(s[a - 1]));
    }
}

/// Whether the characters `cs` read as an `i64`.
fn parses_as_i64(cs: &Vec<char>) -> (r: bool)
    ensures
        r == is_i64_text(cs@),
{
    let n = cs.len();
    let neg = n > 0 && cs[0] == '-';
    let start: usize = if n > 0 && (cs[0] == '-' || cs[0] == '+') { 1 } else { 0 };
    let ghost d = cs@.subrange(start as int, n as int);
    if start >= n {
        return false;
    }
    let limit: u64 = if neg { 0x8000_0000_0000_0000 } else { 0x7fff_ffff_ffff_ffff };
    let mut v: u64 = 0;
    let mut big = false;
    let mut i = start;
    while i < n
        invariant
            start <= i <= n == cs@.len(),
            d == cs@.subrange(start as int, n as int),
            forall|k: int| 0 <= k < i - start ==> is_digit(#[trigger] d[k]),
            !big ==> v == digits_value(d, 0, i - start) && v <= limit,
            big ==> digits_value(d, 0, i - start) > limit,
            limit <= 0x8000_0000_0000_0000,
            start == 0 || start == 1,
            (start == 1) == (cs@.len() > 0 && (cs@[0] == '-' || cs@[0] == '+')),
            limit == if cs@.len() > 0 && cs@[0] == '-' {
                0x8000_0000_0000_0000u64
            } else {
                0x7fff_ffff_ffff_ffffu64
            },
        decreases n - i,
    {
        let c = cs[i];
        if !crate::order::is_digit_char(c) {
            proof {
                assert(d[i - start] == c);
                assert(!is_digit(d[i - start]));
                assert(sign_len(cs@) == start);
                assert(!is_i64_text(cs@));
            }
            return false;
        }
        proof {
            assert(d[i - start] == c);
            assert(is_digit(c));
            assert('0' as u32 == 48 && '9' as u32 == 57);
            lemma_digits_value_step(d, i - start);
        }
        if !big {
            let digit = (c as u32 - '0' as u32) as u64;
            assert(digit <= 9);
            if v > (limit - digit) / 10 {
                big = true;
                proof {
                    assert(v * 10 + digit > limit) by (nonlinear_arith)
                        requires v > (limit - digit) / 10, digit <= 9, limit >= digit;
                }
            } else {
                proof {
                    assert(v * 10 + digit <= limit) by (nonlinear_arith)
                        requires v <= (limit - digit) / 10, limit >= digit;
                }
                v = v * 10 + digit;
            }
        } else {
            proof {
                let p = i - start;
                let dv = digits_value(d, 0, p);
                let dg = (c as u32 - '0' as u32) as int;
                assert(dg >= 0);
                assert(dv * 10 + dg > limit) by (nonlinear_arith)
                    requires dv > limit, limit >= 0, dg >= 0;
            }
        }
        i = i + 1;
    }
    proof {
        assert(d.len() == n - start);
        assert(sign_len(cs@) == start);
        assert(i64_limit(cs@) == limit);
    }
    !big
}

/// Gives a record without a title one: the file-name stem where that is not a
/// number, else the series.
pub fn assign_title_if_empty(metadata: &mut FileScanCache)
    ensures
        final(metadata)@ == title_fill_step(old(metadata)@),
{
    let empty = match &metadata.title {
        Some(t) => to_chars(t.as_str()).len() == 0,
        None => true,
    };
    proof {
        if old(metadata).title is Some {
            if old(metadata).title->0@.len() == 0 {
                assert(old(metadata).title->0@ =~= Seq::<char>::empty());
            }
        }
    }
    if empty {
        let name = to_chars(metadata.file_name.as_str());
        let mut j: usize = 0;
        while j < name.len() && name[j] != '.'
            invariant
                j <= name@.len(),
                find_from(name@, '.', 0) == find_from(name@, '.', j as int),
            decreases name@.len() - j,
        {
            j = j + 1;
        }
        let stem_chars = from_chars(&name, 0, j);
        let cs = to_chars(stem_chars.as_str());
        if !parses_as_i64(&cs) {
            metadata.title = Some(stem_chars);
        }
    }
    let still_empty = match &metadata.title {
        Some(t) => to_chars(t.as_str()).len() == 0,
        None => true,
    };
    let missing = metadata.title.is_none();
    proof {
        if metadata.title is Some {
            if metadata.title->0@.len() == 0 {
                assert(metadata.title->0@ =~= Seq::<char>::empty());
            }
        }
    }
    if missing || (still_empty && metadata.series.is_some()) {
        metadata.title = crate::catalog::clone_opt(&metadata.series);
    }
}

} // verus!
