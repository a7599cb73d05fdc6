//! Interactive clip selection: the key-driven selection state and the highlighting
//! of the searched word in a caption snippet.

use vstd::prelude::*;
use vstd::utf8::{encode_scalar, encode_utf8, char_is_scalar};
use crate::search::Clip;
use crate::text::{chars_of, find_bytes, first_occurrence, lowercase, occurs_at, spec_lowercase, string_of, sub_chars};

verus! {

/// Unicode upper-case mapping of a whole string, as `str::to_uppercase` computes it.
pub uninterp spec fn spec_uppercase(s: Seq<char>) -> Seq<char>;

/// Calls `str::to_uppercase`; the result is the named Unicode upper-case mapping.
#[verifier::external_body]
fn uppercase(s: &str) -> (r: String)
    ensures
        r@ == spec_uppercase(s@),
{
    s.to_uppercase()
}

/// What the user chose for a word.
#[derive(Debug)]
pub enum ClipChoice<T> {
    Selected(Clip<T>),
    Random,
    Quit,
}

/// A key press, as the selection screen reads it.
#[derive(Clone, Copy, PartialEq, Eq, Structural, Debug)]
pub enum SelectionKey {
    /// `q` or Escape.
    Quit,
    /// `r`: let the tool pick.
    Random,
    /// Enter: take the highlighted clip.
    Choose,
    /// Up arrow or `k`.
    Up,
    /// Down arrow or `j`.
    Down,
    /// Anything else.
    Other,
}

/// What the selection screen does after a key press.
#[derive(Clone, Copy, PartialEq, Eq, Structural, Debug)]
pub enum SelectionStep {
    /// Keep going with this clip highlighted.
    Highlight(usize),
    /// The clip at this index was chosen.
    Chosen(usize),
    /// Pick a clip at random.
    Random,
    /// Abort.
    Quit,
}

/// The highlight after moving up: the previous clip, wrapping to the last.
pub open spec fn up_from(i: int, len: int) -> int {
    if i == 0 {
        len - 1
    } else {
        i - 1
    }
}

/// The highlight after moving down: the next clip, wrapping to the first.
pub open spec fn down_from(i: int, len: int) -> int {
    (i + 1) % len
}

/// The step a key press causes with clip `selected` of `len` highlighted.
pub open spec fn selection_outcome(selected: int, len: int, key: SelectionKey) -> SelectionStep {
    match key {
        SelectionKey::Quit => SelectionStep::Quit,
        SelectionKey::Random => SelectionStep::Random,
        SelectionKey::Choose => SelectionStep::Chosen(selected as usize),
        SelectionKey::Up => SelectionStep::Highlight(up_from(selected, len) as usize),
        SelectionKey::Down => SelectionStep::Highlight(down_from(selected, len) as usize),
        SelectionKey::Other => SelectionStep::Highlight(selected as usize),
    }
}

/// Handles one key press on the selection screen.
pub fn selection_step(selected: usize, len: usize, key: SelectionKey) -> (r: SelectionStep)
    requires
        selected < len,
    ensures
        r == selection_outcome(selected as int, len as int, key),
        r matches SelectionStep::Highlight(i) ==> i < len,
        r matches SelectionStep::Chosen(i) ==> i < len,
{
    match key {
        SelectionKey::Quit => SelectionStep::Quit,
        SelectionKey::Random => SelectionStep::Random,
        SelectionKey::Choose => SelectionStep::Chosen(selected),
        SelectionKey::Up => SelectionStep::Highlight(
            if selected == 0 {
                len - 1
            } else {
                selected - 1
            },
        ),
        SelectionKey::Down => SelectionStep::Highlight((selected + 1) % len),
        SelectionKey::Other => SelectionStep::Highlight(selected),
    }
}

/// Moving down undoes moving up, and moving up undoes moving down.
pub proof fn lemma_up_down_inverse(i: int, len: int)
    requires
        0 <= i < len,
    ensures
        down_from(up_from(i, len), len) == i,
        up_from(down_from(i, len), len) == i,
        0 <= up_from(i, len) < len,
        0 <= down_from(i, len) < len,
{
    vstd::arithmetic::div_mod::lemma_mod_self_0(len);
    if i + 1 < len {
        vstd::arithmetic::div_mod::lemma_small_mod((i + 1) as nat, len as nat);
    }
    if i > 0 {
        vstd::arithmetic::div_mod::lemma_small_mod(i as nat, len as nat);
    }
}


/// The UTF-8 length of a character sequence.
pub open spec fn byte_len(s: Seq<char>) -> int {
    encode_utf8(s).len() as int
}

/// Byte offset `b` of `s` falls on a character boundary, after exactly `k` characters.
pub open spec fn char_offset(s: Seq<char>, b: int, k: int) -> bool {
    0 <= k <= s.len() && byte_len(s.take(k)) == b
}

/// The character index, from `k` on, after which `s` has exactly `b` bytes.
pub open spec fn char_index_from(s: Seq<char>, b: int, k: int) -> Option<int>
    decreases s.len() + 1 - k,
{
    if k < 0 || k > s.len() {
        None
    } else if byte_len(s.take(k)) == b {
        Some(k)
    } else {
        char_index_from(s, b, k + 1)
    }
}

/// The number of characters of `s` that take exactly `b` bytes, when byte offset
/// `b` is a character boundary of `s`.
pub open spec fn char_index_at(s: Seq<char>, b: int) -> Option<int> {
    char_index_from(s, b, 0)
}

/// The first byte offset at or after `i` at which `p` occurs in `s`.
pub open spec fn first_match_from(s: Seq<u8>, p: Seq<u8>, i: int) -> Option<int>
    decreases s.len() + 1 - i,
{
    if i < 0 || i > s.len() {
        None
    } else if occurs_at(s, p, i) {
        Some(i)
    } else {
        first_match_from(s, p, i + 1)
    }
}

/// `snippet` with the first occurrence of `word` (found by comparing the lower-cased
/// texts byte by byte) upper-cased, the occurrence taking as many bytes of the
/// snippet as `word` has; the snippet unchanged when the word does not occur; `None`
/// when the occurrence does not start and end on character boundaries of the snippet
/// (which happens only where lower-casing changes byte lengths).
pub open spec fn spec_highlight(snippet: Seq<char>, word: Seq<char>) -> Option<Seq<char>> {
    match first_match_from(
        encode_utf8(spec_lowercase(snippet)),
        encode_utf8(spec_lowercase(word)),
        0,
    ) {
        None => Some(snippet),
        Some(pos) => match (
            char_index_at(snippet, pos),
            char_index_at(snippet, pos + byte_len(word)),
        ) {
            (Some(k1), Some(k2)) => Some(
                snippet.take(k1) + spec_uppercase(snippet.subrange(k1, k2)) + snippet.skip(k2),
            ),
            _ => None,
        },
    }
}

/// UTF-8 encoding distributes over concatenation.
pub proof fn lemma_encode_utf8_concat(a: Seq<char>, b: Seq<char>)
    ensures
        encode_utf8(a + b) == encode_utf8(a) + encode_utf8(b),
    decreases a.len(),
{
    if a.len() == 0 {
        assert(a + b =~= b);
        assert(encode_utf8(a) + encode_utf8(b) =~= encode_utf8(b));
    } else {
        assert((a + b).drop_first() =~= a.drop_first() + b);
        assert((a + b)[0] == a[0]);
        lemma_encode_utf8_concat(a.drop_first(), b);
        assert(encode_utf8(a + b) =~= encode_scalar(a[0] as u32) + (encode_utf8(a.drop_first())
            + encode_utf8(b)));
    }
}

proof fn lemma_byte_len_step(s: Seq<char>, k: int)
    requires
        0 <= k < s.len(),
    ensures
        byte_len(s.take(k + 1)) == byte_len(s.take(k)) + encode_scalar(s[k] as u32).len(),
        encode_scalar(s[k] as u32).len() >= 1,
{
    assert(s.take(k + 1) =~= s.take(k) + seq![s[k]]);
    lemma_encode_utf8_concat(s.take(k), seq![s[k]]);
    let one = seq![s[k]];
    assert(one.drop_first() =~= Seq::<char>::empty());
    assert(one[0] == s[k]);
    assert(encode_utf8(Seq::<char>::empty()) =~= Seq::<u8>::empty());
    assert(encode_utf8(one) == encode_scalar(one[0] as u32) + encode_utf8(one.drop_first()));
    assert(encode_utf8(one) =~= encode_scalar(s[k] as u32));
}

proof fn lemma_byte_len_grows(s: Seq<char>, j: int, k: int)
    requires
        0 <= j <= k <= s.len(),
    ensures
        byte_len(s.take(j)) + (k - j) <= byte_len(s.take(k)),
    decreases k - j,
{
    if j < k {
        lemma_byte_len_grows(s, j, k - 1);
        lemma_byte_len_step(s, k - 1);
    }
}

fn utf8_width(c: char) -> (w: usize)
    ensures
        w == encode_scalar(c as u32).len(),
{
    proof {
        char_is_scalar(c);
    }
    let v = c as u32;
    if v <= 0x7F {
        1
    } else if v <= 0x7FF {
        2
    } else if v <= 0xFFFF {
        3
    } else {
        4
    }
}

/// The number of characters of `s` that take `b` bytes, if `b` is a boundary.
fn char_offset_exec(s: &Vec<char>, b: usize, total: usize) -> (r: Option<usize>)
    requires
        total == byte_len(s@),
    ensures
        r matches Some(k) ==> char_offset(s@, b as int, k as int),
        r is None ==> forall|k: int| !char_offset(s@, b as int, k),
{
    let mut k: usize = 0;
    let mut off: usize = 0;
    while k < s.len() && off < b
        invariant
            k <= s.len(),
            total == byte_len(s@),
            off == byte_len(s@.take(k as int)),
            forall|j: int| 0 <= j < k ==> byte_len(#[trigger] s@.take(j)) < b,
        decreases s.len() - k,
    {
        proof {
            lemma_byte_len_step(s@, k as int);
            lemma_byte_len_grows(s@, k + 1, s.len() as int);
            assert(s@.take(s.len() as int) =~= s@);
        }
        off = off + utf8_width(s[k]);
        k += 1;
    }
    if off == b {
        return Some(k);
    }
    proof {
        assert forall|j: int| !char_offset(s@, b as int, j) by {
            if 0 <= j <= s.len() {
                if j > k {
                    lemma_byte_len_grows(s@, k as int, j);
                }
            }
        }
    }
    None
}

proof fn lemma_first_match(s: Seq<u8>, p: Seq<u8>, i: int, r: Option<usize>)
    requires
        first_occurrence(s, p, r),
        0 <= i,
        r matches Some(x) ==> i <= x,
    ensures
        first_match_from(s, p, i) == (match r {
            Some(x) => Some(x as int),
            None => None,
        }),
    decreases s.len() + 1 - i,
{
    if i > s.len() {
    } else if occurs_at(s, p, i) {
    } else {
        lemma_first_match(s, p, i + 1, r);
    }
}

proof fn lemma_char_offset_unique(s: Seq<char>, b: int, k: int, j: int)
    requires
        char_offset(s, b, k),
        char_offset(s, b, j),
    ensures
        k == j,
{
    if k < j {
        lemma_byte_len_grows(s, k, j);
    } else if j < k {
        lemma_byte_len_grows(s, j, k);
    }
}

proof fn lemma_char_index(s: Seq<char>, b: int, i: int, r: Option<int>)
    requires
        0 <= i,
        r matches Some(k) ==> char_offset(s, b, k) && i <= k,
        r is None ==> forall|k: int| !char_offset(s, b, k),
    ensures
        char_index_from(s, b, i) == r,
    decreases s.len() + 1 - i,
{
    if i > s.len() {
    } else if byte_len(s.take(i)) == b {
        if let Some(k) = r {
            lemma_char_offset_unique(s, b, i, k);
        } else {
            assert(char_offset(s, b, i));
        }
    } else {
        lemma_char_index(s, b, i + 1, r);
    }
}

fn append_vec(out: &mut String, v: &Vec<char>)
    ensures
        final(out)@ == old(out)@ + v@,
{
    let s = string_of(v);
    out.append(s.as_str());
}

/// Highlights the searched word in a caption snippet, or `None` where the byte
/// offsets found in the lower-cased text do not fall on character boundaries of the
/// snippet.
pub fn highlight_checked(snippet: &str, word: &str) -> (r: Option<String>)
    ensures
        match (r, spec_highlight(snippet@, word@)) {
            (Some(a), Some(b)) => a@ == b,
            (None, None) => true,
            _ => false,
        },
{
    let ls = lowercase(snippet);
    let lw = lowercase(word);
    let hay = ls.as_str().as_bytes();
    let needle = lw.as_str().as_bytes();
    let found = find_bytes(hay, needle);
    proof {
        lemma_first_match(encode_utf8(spec_lowercase(snippet@)), encode_utf8(spec_lowercase(word@)), 0, found);
    }
    assert(hay@ == encode_utf8(spec_lowercase(snippet@)));
    assert(needle@ == encode_utf8(spec_lowercase(word@)));
    match found {
        None => Some(String::from_str(snippet)),
        Some(pos) => {
            let wl = word.as_bytes().len();
            let total = snippet.as_bytes().len();
            let sv = chars_of(snippet);
            if pos > total || wl > total - pos {
                proof {
                    let e: int = pos as int + byte_len(word@);
                    assert forall|k: int| !char_offset(snippet@, e, k) by {
                        if 0 <= k <= snippet@.len() {
                            lemma_byte_len_grows(snippet@, k, snippet@.len() as int);
                            assert(snippet@.take(snippet@.len() as int) =~= snippet@);
                        }
                    }
                    lemma_char_index(snippet@, e, 0, None);
                }
                return None;
            }
            let k1 = char_offset_exec(&sv, pos, total);
            let k2 = char_offset_exec(&sv, pos + wl, total);
            match (k1, k2) {
                (Some(a), Some(b)) => {
                    proof {
                        if b < a {
                            lemma_byte_len_grows(sv@, b as int, a as int);
                        }
                        let p: int = pos as int;
                        let e: int = p + byte_len(word@);
                        lemma_char_index(snippet@, p, 0, Some(a as int));
                        lemma_char_index(snippet@, e, 0, Some(b as int));
                    }
                    let head = sub_chars(&sv, 0, a);
                    let middle = string_of(&sub_chars(&sv, a, b));
                    let tail = sub_chars(&sv, b, sv.len());
                    let mut out = string_of(&head);
                    let upper = uppercase(middle.as_str());
                    out.append(upper.as_str());
                    append_vec(&mut out, &tail);
                    assert(sv@.subrange(0, a as int) =~= sv@.take(a as int));
                    assert(sv@.subrange(b as int, sv@.len() as int) =~= sv@.skip(b as int));
                    Some(out)
                },
                _ => {
                    proof {
                        let p: int = pos as int;
                        let e: int = p + byte_len(word@);
                        match k1 {
                            Some(a) => lemma_char_index(snippet@, p, 0, Some(a as int)),
                            None => lemma_char_index(snippet@, p, 0, None),
                        }
                        match k2 {
                            Some(b) => lemma_char_index(snippet@, e, 0, Some(b as int)),
                            None => lemma_char_index(snippet@, e, 0, None),
                        }
                    }
                    None
                },
            }
        },
    }
}

/// Highlights `word` in `snippet` by upper-casing its first (case-insensitive)
/// occurrence.
pub fn highlight_word(snippet: &str, word: &str) -> (r: String)
    requires
        spec_highlight(snippet@, word@) is Some,
    ensures
        spec_highlight(snippet@, word@) == Some(r@),
{
    match highlight_checked(snippet, word) {
        Some(s) => s,
        None => String::new(),
    }
}

/// Highlights `word` in `snippet` where that is defined, and says when it is not.
pub fn try_highlight_word(snippet: &str, word: &str) -> (r: Option<String>)
    ensures
        match (r, spec_highlight(snippet@, word@)) {
            (Some(a), Some(b)) => a@ == b,
            (None, None) => true,
            _ => false,
        },
{
    match highlight_checked(snippet, word) {
        Some(_) => Some(highlight_word(snippet, word)),
        None => None,
    }
}

} // verus!
