//! Turning the user's phrase and sample word into search words, and naming the
//! files that samples are written to.

use vstd::prelude::*;
use crate::text::{
    chars_of, lowercase, spec_lowercase, spec_trim, spec_words, split_words, string_of, trim,
    trim_chars, trim_class, views, CharClass,
};

verus! {

/// A word of the phrase as searched for: stripped of leading and trailing
/// characters that are not alphanumeric; `None` when nothing is left.
pub open spec fn search_word_of(w: Seq<char>) -> Option<Seq<char>> {
    let t = trim_class(w, CharClass::NonAlphanumeric);
    if t.len() > 0 {
        Some(t)
    } else {
        None
    }
}

/// The words of a phrase: its white-space separated words, each stripped of
/// non-alphanumeric ends, with the ones that become empty dropped.
pub open spec fn spec_phrase_words(phrase: Seq<char>) -> Seq<Seq<char>> {
    spec_words(phrase).filter_map(|w: Seq<char>| search_word_of(w))
}

/// Splits a phrase into the words to search for.
pub fn phrase_words(phrase: &str) -> (r: Vec<String>)
    ensures
        r@.map_values(|s: String| s@) == spec_phrase_words(phrase@),
        r@.map_values(|s: String| s@) == spec_words(phrase@).filter(
            |w: Seq<char>| trim_class(w, CharClass::NonAlphanumeric).len() > 0,
        ).map_values(|w: Seq<char>| trim_class(w, CharClass::NonAlphanumeric)),
{
    let v = chars_of(phrase);
    let words = split_words(&v);
    let ghost ws = views(words@);
    let mut out: Vec<String> = Vec::new();
    let mut i: usize = 0;
    while i < words.len()
        invariant
            i <= words.len(),
            ws == views(words@),
            ws == spec_words(phrase@),
            out@.map_values(|s: String| s@) == ws.take(i as int).filter_map(
                |w: Seq<char>| search_word_of(w),
            ),
        decreases words.len() - i,
    {
        let ghost before = out@.map_values(|s: String| s@);
        assert(ws.take(i + 1).drop_last() =~= ws.take(i as int));
        assert(ws.take(i + 1).last() == words@[i as int]@);
        let t = trim_chars(&words[i], CharClass::NonAlphanumeric);
        if t.len() > 0 {
            let s = string_of(&t);
            out.push(s);
            assert(out@.map_values(|s: String| s@) =~= before + seq![t@]);
        }
        i += 1;
    }
    assert(ws.take(words.len() as int) =~= ws);
    proof {
        lemma_phrase_words_keep_every_word(phrase@);
    }
    out
}

proof fn lemma_search_words_nonempty(ws: Seq<Seq<char>>, i: int)
    requires
        0 <= i < ws.filter_map(|w: Seq<char>| search_word_of(w)).len(),
    ensures
        ws.filter_map(|w: Seq<char>| search_word_of(w))[i].len() > 0,
    decreases ws.len(),
{
    let f = |w: Seq<char>| search_word_of(w);
    let rest = ws.drop_last().filter_map(f);
    if i < rest.len() {
        lemma_search_words_nonempty(ws.drop_last(), i);
    }
}

/// No word of a phrase is empty.
pub proof fn lemma_phrase_words_nonempty(phrase: Seq<char>, i: int)
    requires
        0 <= i < spec_phrase_words(phrase).len(),
    ensures
        spec_phrase_words(phrase)[i].len() > 0,
{
    lemma_search_words_nonempty(spec_words(phrase), i);
}

proof fn lemma_search_words_kept(ws: Seq<Seq<char>>)
    ensures
        ws.filter_map(|w: Seq<char>| search_word_of(w)) =~= ws.filter(
            |w: Seq<char>| trim_class(w, CharClass::NonAlphanumeric).len() > 0,
        ).map_values(|w: Seq<char>| trim_class(w, CharClass::NonAlphanumeric)),
    decreases ws.len(),
{
    let p = |w: Seq<char>| trim_class(w, CharClass::NonAlphanumeric).len() > 0;
    let t = |w: Seq<char>| trim_class(w, CharClass::NonAlphanumeric);
    reveal_with_fuel(Seq::filter, 1);
    if ws.len() > 0 {
        let rest = ws.drop_last();
        lemma_search_words_kept(rest);
        if p(ws.last()) {
            assert(rest.filter(p).push(ws.last()).map_values(t) =~= rest.filter(p).map_values(
                t,
            ).push(t(ws.last())));
        }
    }
}

/// Every white-space separated word of a phrase that keeps at least one character
/// once its non-alphanumeric ends are stripped is searched for, stripped, in phrase
/// order; exactly the words with nothing left are dropped.
pub proof fn lemma_phrase_words_keep_every_word(phrase: Seq<char>)
    ensures
        spec_phrase_words(phrase) == spec_words(phrase).filter(
            |w: Seq<char>| trim_class(w, CharClass::NonAlphanumeric).len() > 0,
        ).map_values(|w: Seq<char>| trim_class(w, CharClass::NonAlphanumeric)),
        spec_phrase_words(phrase).len() == spec_words(phrase).filter(
            |w: Seq<char>| trim_class(w, CharClass::NonAlphanumeric).len() > 0,
        ).len(),
{
    lemma_search_words_kept(spec_words(phrase));
}

/// The sample word as searched for: trimmed, stripped of non-alphanumeric ends, and
/// lower-cased.
pub open spec fn spec_sample_word(word: Seq<char>) -> Seq<char> {
    spec_lowercase(trim_class(spec_trim(word), CharClass::NonAlphanumeric))
}

/// Normalises the word given to the `sample` command.
pub fn normalize_sample_word(word: &str) -> (r: String)
    ensures
        r@ == spec_sample_word(word@),
{
    let t = trim(word);
    let u = trim_chars(&t, CharClass::NonAlphanumeric);
    let s = string_of(&u);
    lowercase(s.as_str())
}

/// The file a sample is written to: `<dir>/<word>-<identifier>.wav`.
pub open spec fn sample_path_of(dir: Seq<char>, word: Seq<char>, identifier: Seq<char>) -> Seq<char> {
    dir + "/"@ + word + "-"@ + identifier + ".wav"@
}

/// Names the file for the sample of `word` taken from clip `identifier`.
pub fn sample_path(dir: &str, word: &str, identifier: &str) -> (r: String)
    ensures
        r@ == sample_path_of(dir@, word@, identifier@),
{
    let mut s = String::from_str(dir);
    s.append("/");
    s.append(word);
    s.append("-");
    s.append(identifier);
    s.append(".wav");
    s
}

/// The file the stitched compilation of samples is written to:
/// `<dir>/<word>-stitched.wav`.
pub open spec fn stitched_path_of(dir: Seq<char>, word: Seq<char>) -> Seq<char> {
    dir + "/"@ + word + "-stitched.wav"@
}

/// Names the file for the stitched compilation of the samples of `word`.
pub fn stitched_path(dir: &str, word: &str) -> (r: String)
    ensures
        r@ == stitched_path_of(dir@, word@),
{
    let mut s = String::from_str(dir);
    s.append("/");
    s.append(word);
    s.append("-stitched.wav");
    s
}

} // verus!
