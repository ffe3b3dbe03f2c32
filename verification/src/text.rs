//! Character classification and case folding, as the standard library
//! defines them, and the splitting of text into words built on them.

use vstd::prelude::*;

verus! {

/// Whether `c` counts as part of a word: the value of `char::is_alphanumeric`.
pub uninterp spec fn is_word_char(c: char) -> bool;

/// The lowercase form of `s`: the value of `str::to_lowercase`.
pub uninterp spec fn lowercase(s: Seq<char>) -> Seq<char>;

/// `char::is_alphanumeric` decides from the character alone, by the Unicode
/// tables built into the standard library; the result is given the name
/// [`is_word_char`].
pub assume_specification[ char::is_alphanumeric ](c: char) -> (b: bool)
    ensures
        b == is_word_char(c),
;

/// `str::to_lowercase` returns a new string that depends on the characters of
/// its argument alone; the result is given the name [`lowercase`].
pub assume_specification[ str::to_lowercase ](s: &str) -> (r: String)
    ensures
        r@ == lowercase(s@),
;

/// The characters of `s`, in order.
pub fn chars_of(s: &str) -> (v: Vec<char>)
    ensures
        v@ == s@,
{
    let mut v: Vec<char> = Vec::new();
    for c in it: s.chars()
        invariant
            v@ == it.seq().take(it.index() as int),
    {
        v.push(c);
    }
    v
}

/// The number of word characters at the start of `s`, before the first
/// character that is not one.
pub open spec fn run_len(s: Seq<char>) -> nat
    decreases s.len(),
{
    if s.len() == 0 || !is_word_char(s[0]) {
        0
    } else {
        1 + run_len(s.drop_first())
    }
}

/// The maximal runs of word characters in `s`, from left to right. Every
/// other character is a boundary and belongs to no run; no run is empty.
pub open spec fn runs(s: Seq<char>) -> Seq<Seq<char>>
    decreases s.len(),
    via runs_decreases
{
    if s.len() == 0 {
        Seq::empty()
    } else if !is_word_char(s[0]) {
        runs(s.drop_first())
    } else {
        seq![s.take(run_len(s) as int)] + runs(s.skip(run_len(s) as int))
    }
}

#[via_fn]
proof fn runs_decreases(s: Seq<char>) {
    lemma_run_len_bounds(s);
}

/// The words of `s`: its runs of word characters, each in lowercase.
pub open spec fn words(s: Seq<char>) -> Seq<Seq<char>> {
    runs(s).map_values(|run: Seq<char>| lowercase(run))
}

/// A run never extends past the end of the text.
proof fn lemma_run_len_bounds(s: Seq<char>)
    ensures
        run_len(s) <= s.len(),
        s.len() > 0 && is_word_char(s[0]) ==> run_len(s) >= 1,
    decreases s.len(),
{
    if s.len() > 0 && is_word_char(s[0]) {
        lemma_run_len_bounds(s.drop_first());
    }
}

/// A stretch of word characters that ends at a boundary, or at the end of the
/// text, is exactly the leading run.
proof fn lemma_run_len_is(s: Seq<char>, n: int)
    requires
        0 <= n <= s.len(),
        forall|k: int| 0 <= k < n ==> is_word_char(#[trigger] s[k]),
        n == s.len() || !is_word_char(s[n]),
    ensures
        run_len(s) == n,
    decreases n,
{
    if n > 0 {
        let t = s.drop_first();
        assert forall|k: int| 0 <= k < n - 1 implies is_word_char(#[trigger] t[k]) by {
            assert(t[k] == s[k + 1]);
        }
        lemma_run_len_is(t, n - 1);
    }
}

/// Splits `name` at every character that is not alphanumeric and returns the
/// words between them, in order and in lowercase. Where two such characters
/// stand side by side, or one stands at either end, there is no word.
pub fn split_words(name: &str) -> (out: Vec<String>)
    ensures
        out.deep_view() == words(name@),
{
    let chars = chars_of(name);
    let n = chars.len();
    let mut out: Vec<String> = Vec::new();
    let mut pos: usize = 0;
    proof {
        assert(name@.skip(0) == name@);
        assert(out.deep_view() + words(name@) == words(name@));
    }
    while pos < n
        invariant
            n == chars@.len(),
            chars@ == name@,
            pos <= n,
            out.deep_view() + words(name@.skip(pos as int)) == words(name@),
        decreases n - pos,
    {
        let ghost rest = name@.skip(pos as int);
        if chars[pos].is_alphanumeric() {
            let mut end: usize = pos + 1;
            while end < n && chars[end].is_alphanumeric()
                invariant
                    n == chars@.len(),
                    pos < end <= n,
                    forall|k: int| pos <= k < end ==> is_word_char(#[trigger] chars@[k]),
                decreases n - end,
            {
                end += 1;
            }
            let word = name.substring_char(pos, end).to_lowercase();
            proof {
                let len = end - pos;
                assert forall|k: int| 0 <= k < len implies is_word_char(#[trigger] rest[k]) by {
                    assert(rest[k] == chars@[pos + k]);
                }
                lemma_run_len_is(rest, len);
                assert(rest.take(len) == name@.subrange(pos as int, end as int));
                assert(rest.skip(len) == name@.skip(end as int));
                let prior = out.deep_view();
                assert(words(rest) == seq![lowercase(rest.take(len))] + words(rest.skip(len)));
                assert(prior.push(word@) + words(rest.skip(len)) == prior + words(rest));
            }
            let ghost prior = out.deep_view();
            out.push(word);
            assert(out.deep_view() == prior.push(word@));
            pos = end;
        } else {
            proof {
                assert(rest.drop_first() == name@.skip(pos + 1));
            }
            pos += 1;
        }
    }
    assert(name@.skip(pos as int).len() == 0);
    assert(out.deep_view() + Seq::<Seq<char>>::empty() == out.deep_view());
    out
}

} // verus!
