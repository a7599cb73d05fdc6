//! Matching a target word against the words a speech aligner heard.

use vstd::prelude::*;
use vstd::utf8::encode_utf8;
use crate::text::{
    chars_equal, chars_match_at, chars_of, find_chars, has_prefix, join, join_chars, lowercase,
    occurs_at, replace_chars, spec_lowercase, spec_replace, spec_trim, string_of, trim,
    trim_chars, trim_class, views, CharClass,
};


verus! {

/// `a` and `b` have the same length and differ at most at one position.
pub open spec fn one_substitution(a: Seq<char>, b: Seq<char>) -> bool {
    a.len() == b.len() && exists|i: int| 0 <= i < a.len() && #[trigger] a.update(i, b[i]) == b
}

/// Removing one character of `longer` gives `shorter`.
pub open spec fn one_deletion(longer: Seq<char>, shorter: Seq<char>) -> bool {
    exists|i: int| 0 <= i < longer.len() && #[trigger] longer.remove(i) == shorter
}

/// `a` and `b` differ by at most one edit: an insertion, a deletion or a substitution.
pub open spec fn within_one_edit(a: Seq<char>, b: Seq<char>) -> bool {
    ||| a == b
    ||| one_substitution(a, b)
    ||| (a.len() == b.len() + 1 && one_deletion(a, b))
    ||| (b.len() == a.len() + 1 && one_deletion(b, a))
}

/// Whether removing one character of `longer` gives `shorter`.
fn differ_by_deletion(longer: &Vec<char>, shorter: &Vec<char>) -> (r: bool)
    requires
        longer.len() == shorter.len() + 1,
    ensures
        r == one_deletion(longer@, shorter@),
{
    let ghost l = longer@;
    let ghost s = shorter@;
    let mut i: usize = 0;
    let mut j: usize = 0;
    let mut skipped: Option<usize> = None;
    while i < longer.len() && j < shorter.len()
        invariant
            l == longer@,
            s == shorter@,
            l.len() == s.len() + 1,
            i <= l.len(),
            j <= s.len(),
            match skipped {
                None => i == j && l.subrange(0, i as int) == s.subrange(0, j as int),
                Some(p) => {
                    &&& i == j + 1
                    &&& p < i
                    &&& p <= s.len()
                    &&& (p < s.len() ==> l[p as int] != s[p as int])
                    &&& l.subrange(0, p as int) == s.subrange(0, p as int)
                    &&& l.subrange(p + 1, i as int) == s.subrange(p as int, j as int)
                },
            },
        decreases l.len() - i,
    {
        if longer[i] != shorter[j] {
            match skipped {
                Some(p) => {
                    proof {
                        assert forall|k: int| 0 <= k < l.len() implies #[trigger] l.remove(k)
                            != s by {
                            if k < i {
                                assert(l.remove(k)[j as int] == l[i as int]);
                            } else {
                                assert(l.remove(k)[p as int] == l[p as int]);
                                assert(l.subrange(0, p as int)[p as int - 1] == l[p as int - 1]
                                    || p == 0);
                            }
                        }
                    }
                    return false;
                },
                None => {
                    proof {
                        assert(l.subrange(i + 1, i + 1) =~= s.subrange(j as int, j as int));
                    }
                    skipped = Some(i);
                    i += 1;
                },
            }
        } else {
            proof {
                match skipped {
                    None => {
                        assert(l.subrange(0, i + 1) =~= l.subrange(0, i as int).push(l[i as int]));
                        assert(s.subrange(0, j + 1) =~= s.subrange(0, j as int).push(s[j as int]));
                    },
                    Some(p) => {
                        assert(l.subrange(p + 1, i + 1) =~= l.subrange(p + 1, i as int).push(
                            l[i as int],
                        ));
                        assert(s.subrange(p as int, j + 1) =~= s.subrange(p as int, j as int).push(
                            s[j as int],
                        ));
                    },
                }
            }
            i += 1;
            j += 1;
        }
    }
    proof {
        match skipped {
            None => {
                assert(j == s.len());
                let k = l.len() - 1;
                assert(l.remove(k) =~= s);
            },
            Some(p) => {
                assert(j == s.len());
                assert(l.remove(p as int) =~= l.subrange(0, p as int) + l.subrange(
                    p + 1,
                    l.len() as int,
                ));
                assert(s =~= s.subrange(0, p as int) + s.subrange(p as int, s.len() as int));
                assert(l.remove(p as int) =~= s);
            },
        }
    }
    true
}

/// Whether the character vectors `a` and `b` differ by at most one edit.
fn one_edit_apart(a: &Vec<char>, b: &Vec<char>) -> (r: bool)
    ensures
        r == within_one_edit(a@, b@),
{
    let la = a.len();
    let lb = b.len();
    if (la > lb && la - lb > 1) || (lb > la && lb - la > 1) {
        proof {
            assert forall|i: int| 0 <= i < a@.len() implies #[trigger] a@.remove(i) != b@ by {
                assert(a@.remove(i).len() == a@.len() - 1);
            }
            assert forall|i: int| 0 <= i < b@.len() implies #[trigger] b@.remove(i) != a@ by {
                assert(b@.remove(i).len() == b@.len() - 1);
            }
        }
        return false;
    }
    if la == lb {
        let mut diff: Option<usize> = None;
        let mut i: usize = 0;
        while i < la
            invariant
                la == a.len() == b.len(),
                i <= la,
                match diff {
                    None => forall|m: int| 0 <= m < i ==> a@[m] == b@[m],
                    Some(p) => p < i && a@[p as int] != b@[p as int] && forall|m: int|
                        0 <= m < i && m != p ==> a@[m] == b@[m],
                },
            decreases la - i,
        {
            if a[i] != b[i] {
                match diff {
                    Some(p) => {
                        proof {
                            assert forall|k: int| 0 <= k < a@.len() implies #[trigger] a@.update(
                                k,
                                b@[k],
                            ) != b@ by {
                                if k == p {
                                    assert(a@.update(k, b@[k])[i as int] == a@[i as int]);
                                } else {
                                    assert(a@.update(k, b@[k])[p as int] == a@[p as int]);
                                }
                            }
                            assert(a@[i as int] != b@[i as int]);
                        }
                        return false;
                    },
                    None => {
                        diff = Some(i);
                    },
                }
            }
            i += 1;
        }
        proof {
            match diff {
                None => {
                    assert(a@ =~= b@);
                },
                Some(p) => {
                    assert(a@.update(p as int, b@[p as int]) =~= b@);
                },
            }
        }
        return true;
    }
    if la > lb {
        let r = differ_by_deletion(a, b);
        proof {
            if !r {
                assert(a@ != b@);
            }
        }
        r
    } else {
        let r = differ_by_deletion(b, a);
        proof {
            if !r {
                assert(a@ != b@);
            }
        }
        r
    }
}


/// Check if two strings differ by at most one edit (insert, delete, or substitute).
pub fn edit_distance_1(a: &str, b: &str) -> (r: bool)
    ensures
        r == within_one_edit(a@, b@),
{
    let x = chars_of(a);
    let y = chars_of(b);
    one_edit_apart(&x, &y)
}

/// Edit distance at most one is a symmetric relation.
pub proof fn lemma_within_one_edit_symmetric(a: Seq<char>, b: Seq<char>)
    ensures
        within_one_edit(a, b) == within_one_edit(b, a),
{
    if one_substitution(a, b) {
        let i = choose|i: int| 0 <= i < a.len() && #[trigger] a.update(i, b[i]) == b;
        assert(a.update(i, b[i])[i] == b[i]);
        assert(b.update(i, a[i]) =~= a) by {
            assert forall|m: int| 0 <= m < a.len() && m != i implies b[m] == a[m] by {
                assert(a.update(i, b[i])[m] == a[m]);
            }
        }
    }
    if one_substitution(b, a) {
        let i = choose|i: int| 0 <= i < b.len() && #[trigger] b.update(i, a[i]) == a;
        assert(b.update(i, a[i])[i] == a[i]);
        assert(a.update(i, b[i]) =~= b) by {
            assert forall|m: int| 0 <= m < b.len() && m != i implies a[m] == b[m] by {
                assert(b.update(i, a[i])[m] == b[m]);
            }
        }
    }
}

/// The spellings a speech recogniser confuses for "buy" folded onto "buy":
/// `bye`, then `bi`, then `by` are each replaced by `buy`.
pub open spec fn fold_homophones(s: Seq<char>) -> Seq<char> {
    spec_replace(
        spec_replace(
            spec_replace(s, seq!['b', 'y', 'e'], seq!['b', 'u', 'y']),
            seq!['b', 'i'],
            seq!['b', 'u', 'y'],
        ),
        seq!['b', 'y'],
        seq!['b', 'u', 'y'],
    )
}

/// Two words sound alike once common homophones are folded: they are then equal or
/// at most one edit apart.
pub open spec fn spec_sounds_alike(a: Seq<char>, b: Seq<char>) -> bool {
    let fa = fold_homophones(a);
    let fb = fold_homophones(b);
    fa == fb || within_one_edit(fa, fb)
}

fn fold_homophones_exec(v: &Vec<char>) -> (r: Vec<char>)
    ensures
        r@ == fold_homophones(v@),
{
    let buy: Vec<char> = vec!['b', 'u', 'y'];
    let bye: Vec<char> = vec!['b', 'y', 'e'];
    let bi: Vec<char> = vec!['b', 'i'];
    let by: Vec<char> = vec!['b', 'y'];
    assert(buy@ =~= seq!['b', 'u', 'y']);
    assert(bye@ =~= seq!['b', 'y', 'e']);
    assert(bi@ =~= seq!['b', 'i']);
    assert(by@ =~= seq!['b', 'y']);
    let x = replace_chars(v, &bye, &buy);
    let y = replace_chars(&x, &bi, &buy);
    replace_chars(&y, &by, &buy)
}

fn sounds_alike_chars(a: &Vec<char>, b: &Vec<char>) -> (r: bool)
    ensures
        r == spec_sounds_alike(a@, b@),
{
    let fa = fold_homophones_exec(a);
    let fb = fold_homophones_exec(b);
    chars_equal(&fa, &fb) || one_edit_apart(&fa, &fb)
}

/// Check for common English homophones/near-homophones that whisper confuses.
pub fn sounds_alike(a: &str, b: &str) -> (r: bool)
    ensures
        r == spec_sounds_alike(a@, b@),
{
    let x = chars_of(a);
    let y = chars_of(b);
    sounds_alike_chars(&x, &y)
}

/// Sounding alike is a symmetric relation.
pub proof fn lemma_sounds_alike_symmetric(a: Seq<char>, b: Seq<char>)
    ensures
        spec_sounds_alike(a, b) == spec_sounds_alike(b, a),
{
    lemma_within_one_edit_symmetric(fold_homophones(a), fold_homophones(b));
}

/// Every word sounds like itself.
pub proof fn lemma_sounds_alike_reflexive(a: Seq<char>)
    ensures
        spec_sounds_alike(a, a),
{
}

/// The aligner's output keeps a token as a word unless it is blank (nothing but
/// whitespace) or a bracketed annotation such as `[MUSIC]`, which starts with `[`.
pub open spec fn is_heard_word(text: Seq<char>) -> bool {
    spec_trim(text).len() > 0 && !(text.len() > 0 && text[0] == '[')
}

/// Whether an aligner token is kept as a heard word.
pub fn keep_heard_word(text: &str) -> (r: bool)
    ensures
        r == is_heard_word(text@),
{
    let t = trim(text);
    if t.len() == 0 {
        return false;
    }
    let v = chars_of(text);
    !(v.len() > 0 && v[0] == '[')
}

/// A word as the aligner heard it, with whether its timing passed the
/// plausibility checks (far enough from the clip edges, sensible duration).
#[derive(Clone, Debug)]
pub struct WordCandidate {
    pub text: String,
    pub well_timed: bool,
}

/// A heard word normalised for comparison: lower-cased, then stripped of leading
/// and trailing characters that are not alphanumeric.
pub open spec fn normalized_word(text: Seq<char>) -> Seq<char> {
    trim_class(spec_lowercase(text), CharClass::NonAlphanumeric)
}

/// How well a normalised heard word matches the lower-cased target, best first:
/// 5 for an exact match, 4 for a word that starts with the target, 3 for a word
/// that contains it, 2 for a word at most one edit away and 1 for a homophone.
/// A target of three bytes or fewer matches only exactly: every tier but the
/// exact one is closed to it. An empty word gets no score.
pub open spec fn match_score(word: Seq<char>, target: Seq<char>) -> Option<u8> {
    if word.len() == 0 {
        None
    } else if word == target {
        Some(5u8)
    } else if encode_utf8(target).len() <= 3 {
        None
    } else if has_prefix(word, target) {
        Some(4u8)
    } else if exists|i: int| occurs_at(word, target, i) {
        Some(3u8)
    } else if within_one_edit(word, target) {
        Some(2u8)
    } else if spec_sounds_alike(word, target) {
        Some(1u8)
    } else {
        None
    }
}

/// The tiers rank as documented: among scored words, an exact match outranks any
/// other word, a word starting with the target outranks one that does not, and a
/// word containing the target outranks one that does not.
pub proof fn lemma_match_tiers(a: Seq<char>, b: Seq<char>, target: Seq<char>)
    requires
        match_score(a, target) is Some,
        match_score(b, target) is Some,
    ensures
        a == target && b != target ==> match_score(a, target)->0 > match_score(b, target)->0,
        b != target && has_prefix(a, target) && !has_prefix(b, target) ==> match_score(a, target)->0
            > match_score(b, target)->0,
        b != target && (exists|i: int| occurs_at(a, target, i)) && !(exists|i: int|
            occurs_at(b, target, i)) ==> match_score(a, target)->0 > match_score(b, target)->0,
{
    if has_prefix(b, target) {
        assert(occurs_at(b, target, 0)) by {
            assert(b.subrange(0, target.len() as int) =~= b.take(target.len() as int));
        }
    }
}

/// The score of a heard word against the target as typed.
pub open spec fn candidate_score(c: WordCandidate, target_word: Seq<char>) -> Option<u8> {
    if !c.well_timed {
        None
    } else {
        match_score(normalized_word(c.text@), spec_lowercase(target_word))
    }
}

/// The scores of all heard words.
pub open spec fn candidate_scores(words: Seq<WordCandidate>, target_word: Seq<char>) -> Seq<
    Option<u8>,
> {
    Seq::new(words.len(), |i: int| candidate_score(words[i], target_word))
}

/// `r` is the first index holding the highest score, or `None` when nothing scored.
pub open spec fn is_best_match(scores: Seq<Option<u8>>, r: Option<usize>) -> bool {
    match r {
        Some(i) => {
            &&& i < scores.len()
            &&& scores[i as int] is Some
            &&& forall|j: int|
                0 <= j < scores.len() && #[trigger] scores[j] is Some ==> scores[j]->0
                    <= scores[i as int]->0
            &&& forall|j: int|
                0 <= j < i && #[trigger] scores[j] is Some ==> scores[j]->0 < scores[i as int]->0
        },
        None => forall|j: int| 0 <= j < scores.len() ==> #[trigger] scores[j] is None,
    }
}

fn match_score_exec(word: &Vec<char>, target: &Vec<char>, target_bytes: usize) -> (r: Option<u8>)
    requires
        target_bytes == encode_utf8(target@).len(),
    ensures
        r == match_score(word@, target@),
{
    if word.len() == 0 {
        None
    } else if chars_equal(word, target) {
        Some(5)
    } else if target_bytes <= 3 {
        None
    } else if chars_match_at(word, target, 0) {
        assert(word@.skip(0) =~= word@);
        Some(4)
    } else if find_chars(word, target).is_some() {
        Some(3)
    } else if one_edit_apart(word, target) {
        Some(2)
    } else if sounds_alike_chars(word, target) {
        Some(1)
    } else {
        None
    }
}

/// Picks the heard word that best matches `target_word`: among well-timed words,
/// an exact match beats one that starts with the target, which beats one that
/// contains it, which beats one a single edit away, which beats a homophone (see
/// `match_score`); ties go to the earliest word.
pub fn best_word_match(words: &Vec<WordCandidate>, target_word: &str) -> (r: Option<usize>)
    ensures
        is_best_match(candidate_scores(words@, target_word@), r),
{
    let target = lowercase(target_word);
    let tv = chars_of(target.as_str());
    let tbytes = target.as_str().as_bytes().len();
    let ghost scores = candidate_scores(words@, target_word@);
    let mut best: Option<usize> = None;
    let mut best_score: u8 = 0;
    let mut i: usize = 0;
    while i < words.len()
        invariant
            i <= words.len(),
            scores == candidate_scores(words@, target_word@),
            tv@ == spec_lowercase(target_word@),
            tbytes == encode_utf8(tv@).len(),
            is_best_match(scores.take(i as int), best),
            best matches Some(b) ==> scores[b as int] == Some(best_score),
        decreases words.len() - i,
    {
        let ghost prev = scores.take(i as int);
        assert(scores.take(i + 1) =~= prev.push(scores[i as int]));
        let mut score: Option<u8> = None;
        if words[i].well_timed {
            let lowered = lowercase(words[i].text.as_str());
            let lv = chars_of(lowered.as_str());
            let norm = trim_chars(&lv, CharClass::NonAlphanumeric);
            score = match_score_exec(&norm, &tv, tbytes);
        }
        assert(score == scores[i as int]);
        match score {
            Some(sc) => {
                let better = match best {
                    None => true,
                    Some(_) => sc > best_score,
                };
                if better {
                    proof {
                        let next = scores.take(i + 1);
                        assert forall|j: int|
                            0 <= j < next.len() && #[trigger] next[j] is Some implies next[j]->0
                            <= next[i as int]->0 by {
                            if j < i {
                                assert(next[j] == prev[j]);
                            }
                        }
                        assert forall|j: int|
                            0 <= j < i && #[trigger] next[j] is Some implies next[j]->0
                            < next[i as int]->0 by {
                            assert(next[j] == prev[j]);
                        }
                    }
                    best = Some(i);
                    best_score = sc;
                } else {
                    proof {
                        let next = scores.take(i + 1);
                        let b = best->0;
                        assert forall|j: int|
                            0 <= j < next.len() && #[trigger] next[j] is Some implies next[j]->0
                            <= next[b as int]->0 by {
                            if j < i {
                                assert(next[j] == prev[j]);
                            }
                        }
                        assert forall|j: int|
                            0 <= j < b && #[trigger] next[j] is Some implies next[j]->0
                            < next[b as int]->0 by {
                            assert(next[j] == prev[j]);
                        }
                    }
                }
            },
            None => {
                proof {
                    let next = scores.take(i + 1);
                    match best {
                        None => {
                            assert forall|j: int| 0 <= j < next.len() implies #[trigger] next[j] is None by {
                                if j < i {
                                    assert(next[j] == prev[j]);
                                }
                            }
                        },
                        Some(b) => {
                            assert forall|j: int|
                                0 <= j < next.len() && #[trigger] next[j] is Some implies next[j]->0
                                <= next[b as int]->0 by {
                                if j < i {
                                    assert(next[j] == prev[j]);
                                }
                            }
                            assert forall|j: int|
                                0 <= j < b && #[trigger] next[j] is Some implies next[j]->0
                                < next[b as int]->0 by {
                                assert(next[j] == prev[j]);
                            }
                        },
                    }
                }
            },
        }
        i += 1;
    }
    assert(scores.take(words.len() as int) =~= scores);
    best
}


/// The message given when no heard word matches the target:
/// `Word '<target>' not found in whisper output: [<heard words, comma separated>]`.
pub open spec fn not_found_message(target_word: Seq<char>, heard: Seq<Seq<char>>) -> Seq<char> {
    "Word '"@ + target_word + "' not found in whisper output: ["@ + join(heard, ", "@) + "]"@
}

/// The texts of the heard words.
pub open spec fn heard_texts(words: Seq<WordCandidate>) -> Seq<Seq<char>> {
    words.map_values(|w: WordCandidate| w.text@)
}

/// Builds the error message for a target word that was not heard.
pub fn word_not_found_message(target_word: &str, words: &Vec<WordCandidate>) -> (r: String)
    ensures
        r@ == not_found_message(target_word@, heard_texts(words@)),
{
    let mut heard: Vec<Vec<char>> = Vec::new();
    let mut i: usize = 0;
    while i < words.len()
        invariant
            i <= words.len(),
            views(heard@) == heard_texts(words@).take(i as int),
        decreases words.len() - i,
    {
        let ghost before = heard@;
        heard.push(chars_of(words[i].text.as_str()));
        assert(views(heard@) =~= views(before).push(words@[i as int].text@));
        assert(heard_texts(words@).take(i + 1) =~= heard_texts(words@).take(i as int).push(
            words@[i as int].text@,
        ));
        i += 1;
    }
    assert(heard_texts(words@).take(words.len() as int) =~= heard_texts(words@));
    let sep = chars_of(", ");
    let joined = string_of(&join_chars(&heard, &sep));
    let mut msg = String::from_str("Word '");
    msg.append(target_word);
    msg.append("' not found in whisper output: [");
    msg.append(joined.as_str());
    msg.append("]");
    msg
}

/// What one recognised token adds to a transcript: the trimmed token and a space,
/// unless it is empty or a bracketed annotation such as `[BLANK_AUDIO]`.
pub open spec fn transcript_piece(token: Seq<char>) -> Seq<char> {
    let t = spec_trim(token);
    if t.len() > 0 && t[0] != '[' {
        t.push(' ')
    } else {
        Seq::empty()
    }
}

/// The pieces of all tokens, in order.
pub open spec fn transcript_pieces(tokens: Seq<Seq<char>>) -> Seq<char>
    decreases tokens.len(),
{
    if tokens.len() == 0 {
        Seq::empty()
    } else {
        transcript_pieces(tokens.drop_last()) + transcript_piece(tokens.last())
    }
}

/// A transcript: the pieces, trimmed and lower-cased.
pub open spec fn spec_transcript(tokens: Seq<Seq<char>>) -> Seq<char> {
    spec_lowercase(spec_trim(transcript_pieces(tokens)))
}

/// The text of a transcription (lowercased, trimmed) from its recognised tokens.
pub fn assemble_transcript(tokens: &Vec<String>) -> (r: String)
    ensures
        r@ == spec_transcript(tokens@.map_values(|t: String| t@)),
{
    let ghost toks = tokens@.map_values(|t: String| t@);
    let mut text: Vec<char> = Vec::new();
    let mut i: usize = 0;
    while i < tokens.len()
        invariant
            i <= tokens.len(),
            toks == tokens@.map_values(|t: String| t@),
            text@ == transcript_pieces(toks.take(i as int)),
        decreases tokens.len() - i,
    {
        assert(toks.take(i + 1).drop_last() =~= toks.take(i as int));
        assert(toks.take(i + 1).last() == tokens@[i as int]@);
        let t = trim(tokens[i].as_str());
        if t.len() > 0 && t[0] != '[' {
            let ghost before = text@;
            let mut k: usize = 0;
            while k < t.len()
                invariant
                    k <= t.len(),
                    text@ == before + t@.take(k as int),
                decreases t.len() - k,
            {
                text.push(t[k]);
                assert(before + t@.take(k + 1) =~= (before + t@.take(k as int)).push(t@[k as int]));
                k += 1;
            }
            text.push(' ');
            assert(t@.take(t.len() as int) =~= t@);
            assert(text@ =~= before + t@.push(' '));
        } else {
            assert(text@ =~= text@ + Seq::<char>::empty());
        }
        i += 1;
    }
    assert(toks.take(tokens.len() as int) =~= toks);
    let trimmed = string_of(&trim_chars(&text, CharClass::Whitespace));
    lowercase(trimmed.as_str())
}

} // verus!
