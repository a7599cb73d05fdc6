//! Clips of the TV news archive: their download URLs, the search request, and the
//! conversion and station filtering of search results.

use vstd::prelude::*;
use vstd::utf8::encode_utf8;
use crate::srt::{is_float_literal, parses_as_f64};
use crate::text::{
    chars_equal, chars_of, eq_ignore_ascii_case, spec_eq_ignore_ascii_case, spec_split, split_on,
    string_of, views,
};

verus! {

/// A caption line of a clip that contains the searched word, with its start and end
/// times (in whatever representation `T` the caller keeps times).
#[derive(Clone, Debug)]
pub struct CaptionHit<T> {
    pub start_secs: T,
    pub end_secs: T,
    pub text: String,
}

/// A clip of the archive: a show recording and the time range in it where the
/// search matched (times in whatever representation `T` the caller keeps).
#[derive(Clone, Debug)]
pub struct Clip<T> {
    pub identifier: String,
    pub show: String,
    pub station: String,
    pub start_secs: T,
    pub end_secs: T,
}

/// The MP3 download URL of an archive item.
pub open spec fn mp3_url_of(id: Seq<char>) -> Seq<char> {
    "https://archive.org/download/"@ + id + "/"@ + id + ".mp3"@
}

/// The caption file URL of an archive item for a caption track (`cc5` or `cc1`).
pub open spec fn srt_url_of(id: Seq<char>, track: Seq<char>) -> Seq<char> {
    "https://archive.org/download/"@ + id + "/"@ + id + "."@ + track + ".srt"@
}

impl<T> Clip<T> {
    /// The URL of the clip's full MP3 recording.
    pub fn mp3_url(&self) -> (r: String)
        ensures
            r@ == mp3_url_of(self.identifier@),
    {
        let mut s = String::from_str("https://archive.org/download/");
        s.append(self.identifier.as_str());
        s.append("/");
        s.append(self.identifier.as_str());
        s.append(".mp3");
        s
    }

    /// The URLs of the clip's caption files, the `cc5` track first, then `cc1`.
    pub fn srt_urls(&self) -> (r: Vec<String>)
        ensures
            r.len() == 2,
            r[0]@ == srt_url_of(self.identifier@, "cc5"@),
            r[1]@ == srt_url_of(self.identifier@, "cc1"@),
    {
        let mut a = String::from_str("https://archive.org/download/");
        a.append(self.identifier.as_str());
        a.append("/");
        a.append(self.identifier.as_str());
        a.append(".");
        a.append("cc5");
        a.append(".srt");
        let mut b = String::from_str("https://archive.org/download/");
        b.append(self.identifier.as_str());
        b.append("/");
        b.append(self.identifier.as_str());
        b.append(".");
        b.append("cc1");
        b.append(".srt");
        let mut r: Vec<String> = Vec::new();
        r.push(a);
        r.push(b);
        r
    }
}

/// A hexadecimal digit in upper case.
pub open spec fn hex_digit(d: u8) -> char {
    if d < 10 {
        ((d + 48) as u32) as char
    } else {
        ((d + 55) as u32) as char
    }
}

/// A byte that percent-encoding leaves as it is: an ASCII letter or digit, or one of
/// `-`, `.`, `_`, `~`.
pub open spec fn url_safe_byte(b: u8) -> bool {
    (48 <= b <= 57) || (65 <= b <= 90) || (97 <= b <= 122) || b == 45 || b == 46 || b == 95
        || b == 126
}

/// The percent-encoding of one byte.
pub open spec fn url_encoded_byte(b: u8) -> Seq<char> {
    if url_safe_byte(b) {
        seq![b as char]
    } else {
        seq!['%', hex_digit(b / 16), hex_digit(b % 16)]
    }
}

/// The percent-encoding of a byte string.
pub open spec fn url_encoded(bytes: Seq<u8>) -> Seq<char>
    decreases bytes.len(),
{
    if bytes.len() == 0 {
        Seq::empty()
    } else {
        url_encoded(bytes.drop_last()) + url_encoded_byte(bytes.last())
    }
}

/// Calls `urlencoding::encode`, which percent-encodes every byte of the UTF-8 form of
/// `s` except ASCII alphanumerics and `-`, `.`, `_`, `~`, writing `%` and two
/// upper-case hex digits.
#[verifier::external_body]
fn url_encode(s: &str) -> (r: String)
    ensures
        r@ == url_encoded(encode_utf8(s@)),
{
    urlencoding::encode(s).into_owned()
}

/// The search request for a word: the caption index query with the encoded word
/// and fifty hits per page.
pub open spec fn search_url_of(base_url: Seq<char>, word: Seq<char>) -> Seq<char> {
    base_url + "?service_backend=tvs&user_query="@ + url_encoded(encode_utf8(word))
        + "&hits_per_page=50"@
}

/// Builds the URL that searches the TV news caption index for `word`.
pub fn search_url(base_url: &str, word: &str) -> (r: String)
    ensures
        r@ == search_url_of(base_url@, word@),
{
    let encoded = url_encode(word);
    let mut s = String::from_str(base_url);
    s.append("?service_backend=tvs&user_query=");
    s.append(encoded.as_str());
    s.append("&hits_per_page=50");
    s
}

/// The index of the first part equal to `w`.
pub open spec fn position_of(parts: Seq<Seq<char>>, w: Seq<char>) -> Option<int>
    decreases parts.len(),
{
    if parts.len() == 0 {
        None
    } else if parts[0] == w {
        Some(0)
    } else {
        match position_of(parts.drop_first(), w) {
            Some(k) => Some(k + 1),
            None => None,
        }
    }
}

/// The part following the first part equal to `key`, when it is a float literal.
pub open spec fn value_after(parts: Seq<Seq<char>>, key: Seq<char>) -> Option<Seq<char>> {
    match position_of(parts, key) {
        Some(k) => if k + 1 < parts.len() && is_float_literal(parts[k + 1]) {
            Some(parts[k + 1])
        } else {
            None
        },
        None => None,
    }
}

/// The start and end times written in an archive link such as
/// `/details/ID/start/321/end/381?q=buy`: the path before any `?` is split on `/`, and
/// the parts after the first `start` and the first `end` must be float literals.
pub open spec fn href_times(href: Seq<char>) -> Option<(Seq<char>, Seq<char>)> {
    let path = spec_split(href, seq!['?'])[0];
    let parts = spec_split(path, seq!['/']);
    match (value_after(parts, seq!['s', 't', 'a', 'r', 't']), value_after(parts, seq!['e', 'n', 'd'])) {
        (Some(a), Some(b)) => Some((a, b)),
        _ => None,
    }
}

proof fn lemma_position_of(parts: Seq<Seq<char>>, w: Seq<char>, k: int)
    requires
        0 <= k <= parts.len(),
        forall|j: int| 0 <= j < k ==> parts[j] != w,
    ensures
        k < parts.len() && parts[k] == w ==> position_of(parts, w) == Some(k),
        k == parts.len() ==> position_of(parts, w) is None,
    decreases k,
{
    if k > 0 {
        let t = parts.drop_first();
        assert forall|j: int| 0 <= j < k - 1 implies t[j] != w by {
            assert(t[j] == parts[j + 1]);
        }
        lemma_position_of(t, w, k - 1);
        if k < parts.len() {
            assert(t[k - 1] == parts[k]);
        }
    }
}

fn value_after_exec(parts: &Vec<Vec<char>>, key: &Vec<char>) -> (r: Option<Vec<char>>)
    ensures
        match (r, value_after(views(parts@), key@)) {
            (Some(a), Some(b)) => a@ == b,
            (None, None) => true,
            _ => false,
        },
{
    let ghost ps = views(parts@);
    let mut k: usize = 0;
    while k < parts.len() && !chars_equal(&parts[k], key)
        invariant
            k <= parts.len(),
            ps == views(parts@),
            forall|j: int| 0 <= j < k ==> ps[j] != key@,
        decreases parts.len() - k,
    {
        assert(ps[k as int] == parts@[k as int]@);
        k += 1;
    }
    proof {
        if k < parts.len() {
            assert(ps[k as int] == parts@[k as int]@);
        }
        lemma_position_of(ps, key@, k as int);
    }
    if k == parts.len() || k + 1 >= parts.len() {
        return None;
    }
    assert(ps[k + 1] == parts@[k + 1]@);
    if parses_as_f64(&parts[k + 1]) {
        let mut v: Vec<char> = Vec::new();
        let mut m: usize = 0;
        while m < parts[k + 1].len()
            invariant
                k + 1 < parts.len(),
                m <= parts@[k + 1]@.len(),
                v@ == parts@[k + 1]@.take(m as int),
            decreases parts@[k + 1]@.len() - m,
        {
            v.push(parts[k + 1][m]);
            assert(parts@[k + 1]@.take(m as int).push(parts@[k + 1]@[m as int]) =~= parts@[k
                + 1]@.take(m + 1));
            m += 1;
        }
        assert(parts@[k + 1]@.take(m as int) =~= parts@[k + 1]@);
        Some(v)
    } else {
        None
    }
}

/// Parses the start and end times from an archive link like
/// `/details/ID/start/321/end/381?q=...`, keeping each as the literal text.
pub fn parse_href_times(href: &str) -> (r: Option<(String, String)>)
    ensures
        match (r, href_times(href@)) {
            (Some((a, b)), Some((x, y))) => a@ == x && b@ == y,
            (None, None) => true,
            _ => false,
        },
{
    let h = chars_of(href);
    let question: Vec<char> = vec!['?'];
    let slash: Vec<char> = vec!['/'];
    let start_word: Vec<char> = vec!['s', 't', 'a', 'r', 't'];
    let end_word: Vec<char> = vec!['e', 'n', 'd'];
    assert(question@ =~= seq!['?']);
    assert(slash@ =~= seq!['/']);
    assert(start_word@ =~= seq!['s', 't', 'a', 'r', 't']);
    assert(end_word@ =~= seq!['e', 'n', 'd']);
    let pieces = split_on(&h, &question);
    assert(views(pieces@).len() > 0) by {
        assert(crate::text::split_from(h@, seq!['?'], Seq::empty()).len() > 0) by {
            crate::text::lemma_split_nonempty(h@, seq!['?'], Seq::empty());
        }
    }
    assert(views(pieces@)[0] == pieces@[0]@);
    let parts = split_on(&pieces[0], &slash);
    let a = value_after_exec(&parts, &start_word);
    let b = value_after_exec(&parts, &end_word);
    match (a, b) {
        (Some(x), Some(y)) => Some((string_of(&x), string_of(&y))),
        _ => None,
    }
}


/// The fields of one search hit that the tool reads, each possibly absent.
#[derive(Clone, Debug)]
pub struct IaFields {
    pub identifier: Option<String>,
    pub title: Option<String>,
    pub creator: Option<Vec<String>>,
    pub href: Option<String>,
}

/// A clip with its times kept as text, as the specification sees it.
pub struct ClipText {
    pub identifier: Seq<char>,
    pub show: Seq<char>,
    pub station: Seq<char>,
    pub start: Seq<char>,
    pub end: Seq<char>,
}

/// The view of a clip whose times are held as text.
pub open spec fn clip_text(c: Clip<String>) -> ClipText {
    ClipText {
        identifier: c.identifier@,
        show: c.show@,
        station: c.station@,
        start: c.start_secs@,
        end: c.end_secs@,
    }
}

/// An optional text, empty when absent.
pub open spec fn text_or_empty(o: Option<String>) -> Seq<char> {
    match o {
        Some(s) => s@,
        None => Seq::empty(),
    }
}

/// The first creator (the station), empty when there is none.
pub open spec fn first_creator(c: Option<Vec<String>>) -> Seq<char> {
    match c {
        Some(v) => if v.len() > 0 {
            v[0]@
        } else {
            Seq::empty()
        },
        None => Seq::empty(),
    }
}

/// The clip a search hit describes: it needs fields, an identifier and a link whose
/// start and end times parse; a missing title or creator leaves that text empty.
pub open spec fn hit_clip(hit: Option<IaFields>) -> Option<ClipText> {
    match hit {
        None => None,
        Some(f) => match (f.identifier, f.href) {
            (Some(id), Some(h)) => match href_times(h@) {
                Some((a, b)) => Some(
                    ClipText {
                        identifier: id@,
                        show: text_or_empty(f.title),
                        station: first_creator(f.creator),
                        start: a,
                        end: b,
                    },
                ),
                None => None,
            },
            _ => None,
        },
    }
}

/// A station passes the filters: it is one of `stations` (when that list is not
/// empty) and none of `exclude`, comparing without regard to ASCII case.
pub open spec fn station_allowed(
    station: Seq<char>,
    stations: Seq<Seq<char>>,
    exclude: Seq<Seq<char>>,
) -> bool {
    &&& (stations.len() == 0 || exists|i: int|
        0 <= i < stations.len() && spec_eq_ignore_ascii_case(#[trigger] stations[i], station))
    &&& !exists|i: int|
        0 <= i < exclude.len() && spec_eq_ignore_ascii_case(#[trigger] exclude[i], station)
}

/// The clips of a search response that pass the station filters, in response order.
pub open spec fn search_clips(
    hits: Seq<Option<IaFields>>,
    stations: Seq<Seq<char>>,
    exclude: Seq<Seq<char>>,
) -> Seq<ClipText> {
    hits.filter_map(
        |h: Option<IaFields>|
            match hit_clip(h) {
                Some(c) => if station_allowed(c.station, stations, exclude) {
                    Some(c)
                } else {
                    None
                },
                None => None,
            },
    )
}

/// The texts of a vector of strings.
pub open spec fn texts(v: Seq<String>) -> Seq<Seq<char>> {
    v.map_values(|s: String| s@)
}

fn matches_any(list: &Vec<String>, station: &str) -> (r: bool)
    ensures
        r == exists|i: int|
            0 <= i < texts(list@).len() && spec_eq_ignore_ascii_case(
                #[trigger] texts(list@)[i],
                station@,
            ),
{
    let mut i: usize = 0;
    while i < list.len()
        invariant
            i <= list.len(),
            forall|j: int|
                0 <= j < i ==> !spec_eq_ignore_ascii_case(#[trigger] texts(list@)[j], station@),
        decreases list.len() - i,
    {
        assert(texts(list@)[i as int] == list@[i as int]@);
        if eq_ignore_ascii_case(list[i].as_str(), station) {
            return true;
        }
        i += 1;
    }
    false
}

/// Whether a station passes the include and exclude filters.
pub fn station_passes(station: &str, stations: &Vec<String>, exclude: &Vec<String>) -> (r: bool)
    ensures
        r == station_allowed(station@, texts(stations@), texts(exclude@)),
        r ==> stations.len() == 0 || exists|i: int|
            0 <= i < stations.len() && (#[trigger] stations@[i])@.len() == station@.len()
                && spec_eq_ignore_ascii_case(stations@[i]@, station@),
{
    let r = (stations.len() == 0 || matches_any(stations, station)) && !matches_any(
        exclude,
        station,
    );
    proof {
        lemma_station_filter(station@, texts(stations@), texts(exclude@));
        if r && stations.len() > 0 {
            let i = choose|i: int|
                0 <= i < texts(stations@).len() && (#[trigger] texts(stations@)[i]).len()
                    == station@.len() && spec_eq_ignore_ascii_case(texts(stations@)[i], station@);
            assert(texts(stations@)[i] == stations@[i]@);
        }
    }
    r
}

fn copy_string(s: &String) -> (r: String)
    ensures
        r == *s,
{
    s.clone()
}

fn clip_of_hit(hit: &Option<IaFields>) -> (r: Option<Clip<String>>)
    ensures
        match (r, hit_clip(*hit)) {
            (Some(c), Some(t)) => clip_text(c) == t,
            (None, None) => true,
            _ => false,
        },
{
    match hit {
        None => None,
        Some(f) => match (&f.identifier, &f.href) {
            (Some(id), Some(h)) => match parse_href_times(h.as_str()) {
                Some((a, b)) => {
                    let show = match &f.title {
                        Some(t) => copy_string(t),
                        None => String::new(),
                    };
                    let station = match &f.creator {
                        Some(v) => if v.len() > 0 {
                            copy_string(&v[0])
                        } else {
                            String::new()
                        },
                        None => String::new(),
                    };
                    Some(
                        Clip {
                            identifier: copy_string(id),
                            show,
                            station,
                            start_secs: a,
                            end_secs: b,
                        },
                    )
                },
                None => None,
            },
            _ => None,
        },
    }
}

/// Turns search hits into clips (with their times as text), keeping only those on
/// the wanted stations and not on excluded ones.
pub fn clips_from_search(
    hits: &Vec<Option<IaFields>>,
    stations: &Vec<String>,
    exclude: &Vec<String>,
) -> (r: Vec<Clip<String>>)
    ensures
        r@.map_values(|c: Clip<String>| clip_text(c)) == search_clips(
            hits@,
            texts(stations@),
            texts(exclude@),
        ),
{
    let ghost st = texts(stations@);
    let ghost ex = texts(exclude@);
    let mut out: Vec<Clip<String>> = Vec::new();
    let mut i: usize = 0;
    while i < hits.len()
        invariant
            i <= hits.len(),
            st == texts(stations@),
            ex == texts(exclude@),
            out@.map_values(|c: Clip<String>| clip_text(c)) == search_clips(
                hits@.take(i as int),
                st,
                ex,
            ),
        decreases hits.len() - i,
    {
        let ghost before = out@.map_values(|c: Clip<String>| clip_text(c));
        assert(hits@.take(i + 1).drop_last() =~= hits@.take(i as int));
        assert(hits@.take(i + 1).last() == hits@[i as int]);
        match clip_of_hit(&hits[i]) {
            Some(c) => {
                if station_passes(c.station.as_str(), stations, exclude) {
                    let ghost cv = clip_text(c);
                    out.push(c);
                    assert(out@.map_values(|c: Clip<String>| clip_text(c)) =~= before + seq![cv]);
                }
            },
            None => {},
        }
        i += 1;
    }
    assert(hits@.take(hits.len() as int) =~= hits@);
    out
}


/// The clips to try for a word once the user has picked one: the picked clip first,
/// then every other clip whose identifier differs from it, in their order.
pub open spec fn picked_first<T>(clips: Seq<Clip<T>>, picked: Clip<T>) -> Seq<Clip<T>> {
    seq![picked] + clips.filter(|c: Clip<T>| c.identifier@ != picked.identifier@)
}

fn copy_clip<T: Copy>(c: &Clip<T>) -> (r: Clip<T>)
    ensures
        r == *c,
{
    Clip {
        identifier: copy_string(&c.identifier),
        show: copy_string(&c.show),
        station: copy_string(&c.station),
        start_secs: c.start_secs,
        end_secs: c.end_secs,
    }
}

/// Puts the picked clip first, followed by the other clips that are not the same
/// archive item.
pub fn put_first<T: Copy>(clips: &Vec<Clip<T>>, picked: &Clip<T>) -> (r: Vec<Clip<T>>)
    ensures
        r@ == picked_first(clips@, *picked),
{
    let ghost keep = |c: Clip<T>| c.identifier@ != picked.identifier@;
    let mut out: Vec<Clip<T>> = Vec::new();
    out.push(copy_clip(picked));
    let pid = chars_of(picked.identifier.as_str());
    let mut i: usize = 0;
    while i < clips.len()
        invariant
            i <= clips.len(),
            pid@ == picked.identifier@,
            keep == (|c: Clip<T>| c.identifier@ != picked.identifier@),
            out@ == seq![*picked] + clips@.take(i as int).filter(keep),
        decreases clips.len() - i,
    {
        proof {
            reveal_with_fuel(Seq::filter, 1);
            assert(clips@.take(i + 1).drop_last() =~= clips@.take(i as int));
            assert(clips@.take(i + 1).last() == clips@[i as int]);
        }
        let id = chars_of(clips[i].identifier.as_str());
        if !chars_equal(&id, &pid) {
            let ghost before = out@;
            out.push(copy_clip(&clips[i]));
            assert(out@ =~= seq![*picked] + clips@.take(i + 1).filter(keep));
        } else {
            assert(clips@.take(i + 1).filter(keep) == clips@.take(i as int).filter(keep));
        }
        i += 1;
    }
    assert(clips@.take(clips.len() as int) =~= clips@);
    out
}


/// The clip's archive item has already given a word.
pub open spec fn is_used<T>(c: Clip<T>, used: Seq<Seq<char>>) -> bool {
    used.contains(c.identifier@)
}

/// The clips whose items have not given a word yet, then the others, each group in
/// its own order.
pub open spec fn unused_then_used<T>(clips: Seq<Clip<T>>, used: Seq<Seq<char>>) -> Seq<Clip<T>> {
    clips.filter(|c: Clip<T>| !is_used(c, used)) + clips.filter(|c: Clip<T>| is_used(c, used))
}

fn is_used_exec<T>(c: &Clip<T>, used: &Vec<String>) -> (r: bool)
    ensures
        r == is_used(*c, texts(used@)),
{
    let id = chars_of(c.identifier.as_str());
    let mut i: usize = 0;
    while i < used.len()
        invariant
            i <= used.len(),
            id@ == c.identifier@,
            forall|j: int| 0 <= j < i ==> texts(used@)[j] != c.identifier@,
        decreases used.len() - i,
    {
        assert(texts(used@)[i as int] == used@[i as int]@);
        let u = chars_of(used[i].as_str());
        if chars_equal(&u, &id) {
            assert(texts(used@)[i as int] == c.identifier@);
            return true;
        }
        i += 1;
    }
    false
}

/// Orders clips so that those from archive items not used yet come first (each
/// group keeping the order it had), so that the words of a phrase come from
/// different broadcasts where possible.
///
/// The identifiers of the items already used are passed as a list rather than a
/// set: only whether an identifier occurs in it matters, so repeats and order in
/// `used` change nothing.
pub fn unused_first<T: Copy>(clips: &Vec<Clip<T>>, used: &Vec<String>) -> (r: Vec<Clip<T>>)
    ensures
        r@ == unused_then_used(clips@, texts(used@)),
        r@ == clips@.filter(
            |c: Clip<T>| !(exists|i: int| 0 <= i < used.len() && used@[i]@ == c.identifier@),
        ) + clips@.filter(
            |c: Clip<T>| exists|i: int| 0 <= i < used.len() && used@[i]@ == c.identifier@,
        ),
{
    let ghost u = texts(used@);
    let ghost fresh = |c: Clip<T>| !is_used(c, u);
    let ghost stale = |c: Clip<T>| is_used(c, u);
    let mut first: Vec<Clip<T>> = Vec::new();
    let mut second: Vec<Clip<T>> = Vec::new();
    let mut i: usize = 0;
    while i < clips.len()
        invariant
            i <= clips.len(),
            u == texts(used@),
            fresh == (|c: Clip<T>| !is_used(c, u)),
            stale == (|c: Clip<T>| is_used(c, u)),
            first@ == clips@.take(i as int).filter(fresh),
            second@ == clips@.take(i as int).filter(stale),
        decreases clips.len() - i,
    {
        proof {
            reveal_with_fuel(Seq::filter, 1);
            assert(clips@.take(i + 1).drop_last() =~= clips@.take(i as int));
            assert(clips@.take(i + 1).last() == clips@[i as int]);
        }
        if is_used_exec(&clips[i], used) {
            second.push(copy_clip(&clips[i]));
        } else {
            first.push(copy_clip(&clips[i]));
        }
        i += 1;
    }
    assert(clips@.take(clips.len() as int) =~= clips@);
    let ghost first_part = first@;
    let mut k: usize = 0;
    while k < second.len()
        invariant
            k <= second.len(),
            first@ == first_part + second@.take(k as int),
        decreases second.len() - k,
    {
        first.push(copy_clip(&second[k]));
        assert(first_part + second@.take(k + 1) =~= (first_part + second@.take(k as int)).push(
            second@[k as int],
        ));
        k += 1;
    }
    assert(second@.take(second.len() as int) =~= second@);
    proof {
        let anywhere = |c: Clip<T>| exists|i: int| 0 <= i < used.len() && used@[i]@ == c.identifier@;
        assert forall|c: Clip<T>| #[trigger] is_used(c, u) == anywhere(c) by {
            lemma_is_used_anywhere(c, u);
            if is_used(c, u) {
                let i = choose|i: int| 0 <= i < u.len() && u[i] == c.identifier@;
                assert(used@[i]@ == u[i]);
            }
            if anywhere(c) {
                let i = choose|i: int| 0 <= i < used.len() && used@[i]@ == c.identifier@;
                assert(u[i] == used@[i]@);
            }
        }
        assert(fresh =~= (|c: Clip<T>|
            !(exists|i: int| 0 <= i < used.len() && used@[i]@ == c.identifier@)));
        assert(stale =~= (|c: Clip<T>|
            exists|i: int| 0 <= i < used.len() && used@[i]@ == c.identifier@));
    }
    first
}

/// In the reordered clips, no clip from a used item comes before one from an unused
/// item, and nothing is lost or added.
pub proof fn lemma_unused_first_order<T>(clips: Seq<Clip<T>>, used: Seq<Seq<char>>, i: int, j: int)
    requires
        0 <= i < j < unused_then_used(clips, used).len(),
        is_used(unused_then_used(clips, used)[i], used),
    ensures
        is_used(unused_then_used(clips, used)[j], used),
        unused_then_used(clips, used).len() == clips.len(),
{
    let fresh = |c: Clip<T>| !is_used(c, used);
    let stale = |c: Clip<T>| is_used(c, used);
    let a = clips.filter(fresh);
    let b = clips.filter(stale);
    clips.lemma_filter_len(fresh);
    clips.lemma_filter_len(stale);
    lemma_filter_split_len(clips, used);
    if i < a.len() {
        clips.lemma_filter_pred(fresh, i);
    }
    if j >= a.len() {
        clips.lemma_filter_pred(stale, j - a.len());
    } else {
        clips.lemma_filter_pred(fresh, i);
    }
}

/// A clip counts as used exactly when its identifier occurs somewhere in `used`,
/// at any position.
pub proof fn lemma_is_used_anywhere<T>(c: Clip<T>, used: Seq<Seq<char>>)
    ensures
        is_used(c, used) <==> exists|i: int| 0 <= i < used.len() && used[i] == c.identifier@,
{
}

/// The order of `unused_first` depends only on which identifiers are used, not on
/// how the used list is ordered or how often an identifier repeats in it.
pub proof fn lemma_unused_first_ignores_used_order<T>(
    clips: Seq<Clip<T>>,
    used1: Seq<Seq<char>>,
    used2: Seq<Seq<char>>,
)
    requires
        forall|x: Seq<char>| used1.contains(x) <==> used2.contains(x),
    ensures
        unused_then_used(clips, used1) == unused_then_used(clips, used2),
{
    let f1 = |c: Clip<T>| !is_used(c, used1);
    let f2 = |c: Clip<T>| !is_used(c, used2);
    let s1 = |c: Clip<T>| is_used(c, used1);
    let s2 = |c: Clip<T>| is_used(c, used2);
    assert(f1 =~= f2);
    assert(s1 =~= s2);
}

/// With a non-empty include list a station passes only when it equals one of the
/// listed stations up to ASCII case (same length, letter by letter); a station
/// equal to an excluded one never passes; and one equal to an included station
/// (or any station, with no include list) that matches no excluded one passes.
pub proof fn lemma_station_filter(
    station: Seq<char>,
    stations: Seq<Seq<char>>,
    exclude: Seq<Seq<char>>,
)
    ensures
        station_allowed(station, stations, exclude) ==> stations.len() == 0 || exists|i: int|
            0 <= i < stations.len() && (#[trigger] stations[i]).len() == station.len()
                && spec_eq_ignore_ascii_case(stations[i], station),
        (exists|i: int|
            0 <= i < exclude.len() && spec_eq_ignore_ascii_case(#[trigger] exclude[i], station))
            ==> !station_allowed(station, stations, exclude),
        (stations.len() == 0 || exists|i: int|
            0 <= i < stations.len() && spec_eq_ignore_ascii_case(#[trigger] stations[i], station))
            && !(exists|i: int|
            0 <= i < exclude.len() && spec_eq_ignore_ascii_case(#[trigger] exclude[i], station))
            ==> station_allowed(station, stations, exclude),
{
}

proof fn lemma_filter_split_len<T>(clips: Seq<Clip<T>>, used: Seq<Seq<char>>)
    ensures
        clips.filter(|c: Clip<T>| !is_used(c, used)).len() + clips.filter(
            |c: Clip<T>| is_used(c, used),
        ).len() == clips.len(),
    decreases clips.len(),
{
    reveal_with_fuel(Seq::filter, 1);
    if clips.len() > 0 {
        lemma_filter_split_len(clips.drop_last(), used);
    }
}

/// What probing a clip's downloads found: whether its MP3 answered, and for each
/// caption URL tried (in the order of `srt_urls`) whether it answered.
#[derive(Clone, Debug)]
pub struct ClipProbe {
    pub mp3_ok: bool,
    pub srt_ok: Vec<bool>,
}

/// A clip can be used when its MP3 answered and at least one caption URL did.
pub open spec fn probe_passes(p: ClipProbe) -> bool {
    p.mp3_ok && p.srt_ok@.contains(true)
}

/// The first `n` clips whose probes passed, in their order.
pub open spec fn available_prefix<T>(clips: Seq<Clip<T>>, probes: Seq<ClipProbe>, n: int) -> Seq<
    Clip<T>,
>
    decreases n,
{
    if n <= 0 {
        Seq::empty()
    } else {
        let before = available_prefix(clips, probes, n - 1);
        if probe_passes(probes[n - 1]) {
            before.push(clips[n - 1])
        } else {
            before
        }
    }
}

/// The clips whose probes passed, in their order.
pub open spec fn available_of<T>(clips: Seq<Clip<T>>, probes: Seq<ClipProbe>) -> Seq<Clip<T>> {
    available_prefix(clips, probes, clips.len() as int)
}

/// Whether a probed clip can be used.
pub fn clip_available(p: &ClipProbe) -> (r: bool)
    ensures
        r == probe_passes(*p),
{
    if !p.mp3_ok {
        return false;
    }
    let mut i: usize = 0;
    while i < p.srt_ok.len()
        invariant
            i <= p.srt_ok.len(),
            p.mp3_ok,
            forall|j: int| 0 <= j < i ==> !p.srt_ok@[j],
        decreases p.srt_ok.len() - i,
    {
        if p.srt_ok[i] {
            assert(p.srt_ok@[i as int] == true);
            return true;
        }
        i += 1;
    }
    false
}

/// Keeps the clips whose probe passed (`probes[i]` is the probe of `clips[i]`),
/// in their order.
pub fn available_clips<T: Copy>(clips: &Vec<Clip<T>>, probes: &Vec<ClipProbe>) -> (r: Vec<Clip<T>>)
    requires
        clips.len() == probes.len(),
    ensures
        r@ == available_of(clips@, probes@),
{
    let mut out: Vec<Clip<T>> = Vec::new();
    let mut i: usize = 0;
    while i < clips.len()
        invariant
            i <= clips.len(),
            clips.len() == probes.len(),
            out@ == available_prefix(clips@, probes@, i as int),
        decreases clips.len() - i,
    {
        if clip_available(&probes[i]) {
            out.push(copy_clip(&clips[i]));
        }
        i += 1;
    }
    out
}

} // verus!
