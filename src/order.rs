use vstd::prelude::*;

verus! {

pub open spec fn is_digit(c: char) -> bool {
    '0' as u32 <= c as u32 <= '9' as u32
}

/// A word character: ASCII letter, digit or underscore.
pub open spec fn is_word(c: char) -> bool {
    let u = c as u32;
    is_digit(c) || ('a' as u32 <= u <= 'z' as u32) || ('A' as u32 <= u <= 'Z' as u32) || c == '_'
}

/// `c` is the lower-case letter `w`, or its ASCII upper-case form.
pub open spec fn same_letter(c: char, w: char) -> bool {
    c == w || ('A' as u32 <= c as u32 <= 'Z' as u32 && c as u32 + 32 == w as u32)
}

/// `s[..a]` ends with the word `w` (ASCII case ignored), which starts a word.
pub open spec fn ends_with_word(s: Seq<char>, a: int, w: Seq<char>) -> bool {
    &&& w.len() <= a <= s.len()
    &&& forall|k: int| 0 <= k < w.len() ==> same_letter(#[trigger] s[a - w.len() + k], w[k])
    &&& (a == w.len() || !is_word(s[a - w.len() - 1]))
}

/// A qualifier word (`vol`, `volume`, `part`, `disc`) stands right before `a`.
pub open spec fn qualified(s: Seq<char>, a: int) -> bool {
    ends_with_word(s, a, seq!['v', 'o', 'l']) || ends_with_word(
        s,
        a,
        seq!['v', 'o', 'l', 'u', 'm', 'e'],
    ) || ends_with_word(s, a, seq!['p', 'a', 'r', 't']) || ends_with_word(
        s,
        a,
        seq!['d', 'i', 's', 'c'],
    )
}

/// First index at or after `i` that holds no digit, or `s.len()`.
pub open spec fn digits_end(s: Seq<char>, i: int) -> int
    decreases s.len() - i,
{
    if 0 <= i < s.len() && is_digit(s[i]) {
        digits_end(s, i + 1)
    } else {
        i
    }
}

/// Decimal value of the digits `s[a..b]`.
pub open spec fn digits_value(s: Seq<char>, a: int, b: int) -> int
    decreases b - a,
{
    if a < b {
        digits_value(s, a, b - 1) * 10 + (s[b - 1] as u32 - '0' as u32)
    } else {
        0
    }
}

/// A number token starts at `a`: a run of digits that is a whole word, or that
/// follows a qualifier word, and whose value fits in an `i32`.
pub open spec fn token_at(s: Seq<char>, a: int) -> bool {
    let b = digits_end(s, a);
    &&& 0 <= a < s.len()
    &&& is_digit(s[a])
    &&& (a == 0 || !is_word(s[a - 1]) || qualified(s, a))
    &&& (b == s.len() || !is_word(s[b]))
    &&& digits_value(s, a, b) <= i32::MAX
}

/// Value of the first number token of `s[i..]`.
pub open spec fn first_order_from(s: Seq<char>, i: int) -> Option<int>
    decreases s.len() - i,
{
    if 0 <= i < s.len() {
        if token_at(s, i) {
            Some(digits_value(s, i, digits_end(s, i)))
        } else {
            first_order_from(s, i + 1)
        }
    } else {
        None
    }
}

/// The ordering number of a text (disc, volume, part), if it has one.
pub open spec fn disc_order(s: Seq<char>) -> Option<int> {
    first_order_from(s, 0)
}

pub(crate) fn is_digit_char(c: char) -> (r: bool)
    ensures
        r == is_digit(c),
{
    '0' <= c && c <= '9'
}

fn is_word_char(c: char) -> (r: bool)
    ensures
        r == is_word(c),
{
    ('0' <= c && c <= '9') || ('a' <= c && c <= 'z') || ('A' <= c && c <= 'Z') || c == '_'
}

pub(crate) fn same_letter_char(c: char, w: char) -> (r: bool)
    ensures
        r == same_letter(c, w),
{
    c == w || ('A' <= c && c <= 'Z' && c as u32 + 32 == w as u32)
}

fn ends_with_word_at(s: &Vec<char>, a: usize, w: &Vec<char>) -> (r: bool)
    requires
        a <= s.len(),
    ensures
        r == ends_with_word(s@, a as int, w@),
{
    let n = w.len();
    if n > a {
        return false;
    }
    let mut k: usize = 0;
    while k < n
        invariant
            n == w.len() <= a <= s.len(),
            k <= n,
            forall|m: int| 0 <= m < k ==> same_letter(#[trigger] s@[a - n + m], w@[m]),
        decreases n - k,
    {
        if !same_letter_char(s[a - n + k], w[k]) {
            return false;
        }
        k = k + 1;
    }
    a == n || !is_word_char(s[a - n - 1])
}

fn qualified_at(s: &Vec<char>, a: usize) -> (r: bool)
    requires
        a <= s.len(),
    ensures
        r == qualified(s@, a as int),
{
    let vol = vec!['v', 'o', 'l'];
    let volume = vec!['v', 'o', 'l', 'u', 'm', 'e'];
    let part = vec!['p', 'a', 'r', 't'];
    let disc = vec!['d', 'i', 's', 'c'];
    assert(vol@ =~= seq!['v', 'o', 'l']);
    assert(volume@ =~= seq!['v', 'o', 'l', 'u', 'm', 'e']);
    assert(part@ =~= seq!['p', 'a', 'r', 't']);
    assert(disc@ =~= seq!['d', 'i', 's', 'c']);
    ends_with_word_at(s, a, &vol) || ends_with_word_at(s, a, &volume) || ends_with_word_at(
        s,
        a,
        &part,
    ) || ends_with_word_at(s, a, &disc)
}

proof fn lemma_digits_value_nonneg(s: Seq<char>, a: int, b: int)
    requires
        forall|k: int| a <= k < b ==> is_digit(#[trigger] s[k]),
    ensures
        digits_value(s, a, b) >= 0,
    decreases b - a,
{
    if a < b {
        lemma_digits_value_nonneg(s, a, b - 1);
    }
}

/// Extracts the ordering number of a text: the first run of digits that is a
/// whole word or follows `vol`, `volume`, `part` or `disc`, and fits in an `i32`.
pub fn capture_disc_order(text: &str) -> (r: Option<i64>)
    ensures
        r matches Some(v) ==> disc_order(text@) == Some(v as int),
        r is None ==> disc_order(text@) is None,
{
    let s = crate::text::to_chars(text);
    let n = s.len();
    let mut i: usize = 0;
    while i < n
        invariant
            n == s.len(),
            s@ == text@,
            i <= n,
            disc_order(s@) == first_order_from(s@, i as int),
        decreases n - i,
    {
        if is_digit_char(s[i]) && (i == 0 || !is_word_char(s[i - 1]) || qualified_at(&s, i)) {
            let mut j = i;
            let mut v: i64 = 0;
            let mut big = false;
            while j < n && is_digit_char(s[j])
                invariant
                    i <= j <= n,
                    n == s.len(),
                    digits_end(s@, i as int) == digits_end(s@, j as int),
                    forall|k: int| i <= k < j ==> is_digit(#[trigger] s@[k]),
                    big ==> digits_value(s@, i as int, j as int) > i32::MAX,
                    !big ==> v == digits_value(s@, i as int, j as int) && v <= i32::MAX,
                decreases n - j,
            {
                proof {
                    lemma_digits_value_nonneg(s@, i as int, j as int);
                }
                let d = (s[j] as u32 - '0' as u32) as i64;
                if !big {
                    v = v * 10 + d;
                    if v > 2147483647 {
                        big = true;
                    }
                }
                j = j + 1;
            }
            if !big && (j == n || !is_word_char(s[j])) {
                return Some(v);
            }
        }
        i = i + 1;
    }
    None
}

} // verus!
