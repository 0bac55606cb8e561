use vstd::prelude::*;
use crate::text::{is_ws, is_ws_char, to_chars, from_chars};
use crate::clean::views;

verus! {

/// What `strsim::levenshtein` returns for two texts.
pub uninterp spec fn edit_distance(a: Seq<char>, b: Seq<char>) -> nat;

/// What `str::to_lowercase` returns for a text.
pub uninterp spec fn lower_of(s: Seq<char>) -> Seq<char>;

/// What `char::is_alphanumeric` returns for a character.
pub uninterp spec fn alnum_of(c: char) -> bool;

/// Relies on `strsim::levenshtein`: the edit distance between two texts.
#[verifier::external_body]
fn levenshtein(a: &String, b: &String) -> (r: usize)
    ensures
        r == edit_distance(a@, b@),
{
    strsim::levenshtein(a.as_str(), b.as_str())
}

/// Relies on `str::to_lowercase`: the lower-case form depends on the text alone.
#[verifier::external_body]
fn lowercase(s: &str) -> (r: String)
    ensures
        r@ == lower_of(s@),
{
    s.to_lowercase()
}

/// Relies on `char::is_alphanumeric`.
#[verifier::external_body]
fn is_alphanumeric(c: char) -> (r: bool)
    ensures
        r == alnum_of(c),
{
    c.is_alphanumeric()
}

/// Every character that is neither alphanumeric nor whitespace becomes a space.
pub open spec fn scrub(s: Seq<char>) -> Seq<char> {
    s.map_values(|c: char| if alnum_of(c) || is_ws(c) { c } else { ' ' })
}

/// First index at or after `i` holding whitespace, or `s.len()`.
pub open spec fn word_end(s: Seq<char>, i: int) -> int
    decreases s.len() - i,
{
    if 0 <= i < s.len() && !is_ws(s[i]) {
        word_end(s, i + 1)
    } else {
        i
    }
}

proof fn lemma_word_end(s: Seq<char>, i: int)
    requires
        0 <= i <= s.len(),
    ensures
        i <= word_end(s, i) <= s.len(),
        i < s.len() && !is_ws(s[i]) ==> i < word_end(s, i),
    decreases s.len() - i,
{
    if i < s.len() && !is_ws(s[i]) {
        lemma_word_end(s, i + 1);
    }
}

/// The whitespace-separated words of `s[i..]` (as `str::split_whitespace` gives them).
pub open spec fn words_from(s: Seq<char>, i: int) -> Seq<Seq<char>>
    decreases s.len() - i,
    via words_from_decreases
{
    if 0 <= i < s.len() {
        if is_ws(s[i]) {
            words_from(s, i + 1)
        } else {
            seq![s.subrange(i, word_end(s, i))] + words_from(s, word_end(s, i))
        }
    } else {
        Seq::empty()
    }
}

#[via_fn]
proof fn words_from_decreases(s: Seq<char>, i: int) {
    if 0 <= i < s.len() {
        lemma_word_end(s, i);
    }
}

/// Some run of consecutive `words` is within edit distance `limit` of `phrase`,
/// word by word.
pub open spec fn fuzzy_match(words: Seq<Seq<char>>, phrase: Seq<Seq<char>>, limit: nat) -> bool {
    exists|k: int|
        0 <= k && k + phrase.len() <= words.len() && #[trigger] window_close(
            words,
            k,
            phrase,
            limit,
        )
}

pub open spec fn window_close(
    words: Seq<Seq<char>>,
    k: int,
    phrase: Seq<Seq<char>>,
    limit: nat,
) -> bool {
    forall|m: int| 0 <= m < phrase.len() ==> edit_distance(#[trigger] words[k + m], phrase[m]) <= limit
}

pub open spec fn graphic_audio() -> Seq<Seq<char>> {
    seq![seq!['g', 'r', 'a', 'p', 'h', 'i', 'c'], seq!['a', 'u', 'd', 'i', 'o']]
}

pub open spec fn dramatized_words() -> Seq<Seq<char>> {
    seq![seq!['d', 'r', 'a', 'm', 'a', 't', 'i', 'z', 'e', 'd']]
}

/// A text reads as "graphic audio" or "dramatized", each word within two edits.
pub open spec fn reads_dramatized(text: Seq<char>) -> bool {
    lower_reads_dramatized(lower_of(text))
}

/// An already lower-cased text reads as "graphic audio" or "dramatized".
pub open spec fn lower_reads_dramatized(lower: Seq<char>) -> bool {
    let words = words_from(scrub(lower), 0);
    fuzzy_match(words, graphic_audio(), 2) || fuzzy_match(words, dramatized_words(), 2)
}

/// The words of `s`, split on whitespace.
fn split_words(s: &Vec<char>) -> (r: Vec<String>)
    ensures
        views(r@) == words_from(s@, 0),
{
    let n = s.len();
    let mut out: Vec<String> = Vec::new();
    let mut i: usize = 0;
    while i < n
        invariant
            n == s.len(),
            i <= n,
            words_from(s@, 0) == views(out@) + words_from(s@, i as int),
        decreases n - i,
    {
        if is_ws_char(s[i]) {
            i = i + 1;
        } else {
            let mut j = i;
            while j < n && !is_ws_char(s[j])
                invariant
                    i <= j <= n,
                    n == s.len(),
                    word_end(s@, i as int) == word_end(s@, j as int),
                decreases n - j,
            {
                j = j + 1;
            }
            let w = from_chars(s, i, j);
            proof {
                assert(views(out@.push(w)) =~= views(out@).push(w@));
                assert(views(out@).push(w@) + words_from(s@, j as int) =~= views(out@) + (seq![w@]
                    + words_from(s@, j as int)));
            }
            out.push(w);
            i = j;
        }
    }
    proof {
        assert(views(out@) + words_from(s@, i as int) =~= views(out@));
    }
    out
}

/// Whether some run of consecutive `words` is within `limit` edits of `phrase`.
fn fuzzy_contain(words: &Vec<String>, phrase: &Vec<String>, limit: usize) -> (r: bool)
    requires
        phrase.len() > 0,
    ensures
        r == fuzzy_match(views(words@), views(phrase@), limit as nat),
{
    let n = words.len();
    let p = phrase.len();
    if p > n {
        return false;
    }
    let mut k: usize = 0;
    while k <= n - p
        invariant
            n == words.len(),
            p == phrase.len(),
            p <= n,
            k <= n - p + 1,
            forall|q: int|
                0 <= q < k ==> !#[trigger] window_close(
                    views(words@),
                    q,
                    views(phrase@),
                    limit as nat,
                ),
        decreases n - k,
    {
        let mut m: usize = 0;
        let mut close = true;
        while m < p
            invariant
                n == words.len(),
                p == phrase.len(),
                k + p <= n,
                m <= p,
                close == forall|q: int|
                    0 <= q < m ==> edit_distance(#[trigger] views(words@)[k + q], views(phrase@)[q])
                        <= limit,
            decreases p - m,
        {
            let d = levenshtein(&words[k + m], &phrase[m]);
            proof {
                assert(views(words@)[k + m] == words@[k + m]@);
                assert(views(phrase@)[m as int] == phrase@[m as int]@);
            }
            if d > limit {
                close = false;
            }
            m = m + 1;
            proof {
                if close {
                    assert forall|q: int| 0 <= q < m implies edit_distance(
                        #[trigger] views(words@)[k + q],
                        views(phrase@)[q],
                    ) <= limit by {}
                } else {
                    let q0 = (m - 1) as int;
                    if d <= limit {
                        let w = choose|q: int|
                            0 <= q < m - 1 && !(edit_distance(
                                #[trigger] views(words@)[k + q],
                                views(phrase@)[q],
                            ) <= limit);
                        assert(0 <= w < m);
                    } else {
                        assert(!(edit_distance(views(words@)[k + q0], views(phrase@)[q0]) <= limit));
                    }
                }
            }
        }
        if close {
            assert(window_close(views(words@), k as int, views(phrase@), limit as nat));
            return true;
        }
        k = k + 1;
    }
    false
}

/// Whether a tag value reads as a dramatized or graphic-audio production.
pub fn is_dramatized(text: &String) -> (r: bool)
    ensures
        r == reads_dramatized(text@),
{
    let lower = lowercase(text.as_str());
    is_dramatized_lower(lower.as_str())
}

/// Whether an already lower-cased text reads as a dramatized or graphic-audio
/// production.
pub fn is_dramatized_lower(lower: &str) -> (r: bool)
    ensures
        r == lower_reads_dramatized(lower@),
{
    let cs = to_chars(lower);
    let mut scrubbed: Vec<char> = Vec::new();
    let mut i: usize = 0;
    while i < cs.len()
        invariant
            i <= cs.len(),
            scrubbed@ =~= scrub(cs@).subrange(0, i as int),
        decreases cs.len() - i,
    {
        let c = cs[i];
        if is_alphanumeric(c) || is_ws_char(c) {
            scrubbed.push(c);
        } else {
            scrubbed.push(' ');
        }
        i = i + 1;
    }
    let words = split_words(&scrubbed);
    let g = String::from_str("graphic");
    let a = String::from_str("audio");
    let dr = String::from_str("dramatized");
    proof {
        reveal_strlit("graphic");
        reveal_strlit("audio");
        reveal_strlit("dramatized");
        assert(g@ =~= seq!['g', 'r', 'a', 'p', 'h', 'i', 'c']);
        assert(a@ =~= seq!['a', 'u', 'd', 'i', 'o']);
        assert(dr@ =~= seq!['d', 'r', 'a', 'm', 'a', 't', 'i', 'z', 'e', 'd']);
    }
    let graphic = vec![g, a];
    let drama = vec![dr];
    proof {
        reveal_strlit("graphic");
        reveal_strlit("audio");
        reveal_strlit("dramatized");
        assert(views(graphic@)[0] == graphic@[0]@);
        assert(views(graphic@)[1] == graphic@[1]@);
        assert(views(drama@)[0] == drama@[0]@);
        assert(views(graphic@) =~= graphic_audio());
        assert(views(drama@) =~= dramatized_words());
        assert(scrubbed@ =~= scrub(lower@));
    }
    fuzzy_contain(&words, &graphic, 2) || fuzzy_contain(&words, &drama, 2)
}

} // verus!
