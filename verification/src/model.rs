//! Where the speech model file lives.

use vstd::prelude::*;
use vstd::utf8::encode_utf8;
use crate::text::has_prefix;

verus! {

/// Calls `dirs::home_dir`, giving the user's home directory as the bytes of the
/// platform path (`OsString::into_encoded_bytes`; on Unix, the path's raw bytes).
/// The result comes from the environment, so nothing is stated of it.
#[verifier::external_body]
fn home_dir() -> (r: Option<Vec<u8>>) {
    dirs::home_dir().map(|p| p.into_os_string().into_encoded_bytes())
}

/// The byte of the path separator `/`.
pub open spec fn slash() -> u8 {
    47u8
}

/// `PathBuf::join` on Unix, on the paths' bytes: an absolute `rest` replaces
/// `base`; otherwise `rest` is appended, with a `/` in between unless `base` is
/// empty or already ends with one.
pub open spec fn join_path(base: Seq<u8>, rest: Seq<u8>) -> Seq<u8> {
    if rest.len() > 0 && rest[0] == slash() {
        rest
    } else if base.len() > 0 && base.last() != slash() {
        base + seq![slash()] + rest
    } else {
        base + rest
    }
}

/// Whether a model path (as UTF-8 bytes) is relative to the home directory:
/// it starts with `~/`.
pub open spec fn is_home_relative(path: Seq<u8>) -> bool {
    has_prefix(path, seq![126u8, slash()])
}

/// The resolved model path for a given home directory, as bytes: `~/rest` becomes
/// the home directory joined with `rest` (`None` when the home directory is
/// unknown); any other path is kept as it is.
pub open spec fn model_path_for(path: Seq<u8>, home: Option<Seq<u8>>) -> Option<Seq<u8>> {
    if is_home_relative(path) {
        match home {
            Some(h) => Some(join_path(h, path.skip(2))),
            None => None,
        }
    } else {
        Some(path)
    }
}

/// The error given when the home directory cannot be found.
pub open spec fn no_home_message() -> Seq<char> {
    "Cannot determine home directory"@
}

/// The bytes `v[i..j]`.
fn sub_bytes(v: &[u8], i: usize, j: usize) -> (r: Vec<u8>)
    requires
        i <= j <= v@.len(),
    ensures
        r@ == v@.subrange(i as int, j as int),
{
    let mut out: Vec<u8> = Vec::new();
    let mut k: usize = i;
    while k < j
        invariant
            i <= k <= j,
            j <= v@.len(),
            out@ == v@.subrange(i as int, k as int),
        decreases j - k,
    {
        out.push(v[k]);
        assert(v@.subrange(i as int, k + 1) =~= v@.subrange(i as int, k as int).push(v@[k as int]));
        k += 1;
    }
    out
}

fn join_path_exec(base: &Vec<u8>, rest: &Vec<u8>) -> (r: Vec<u8>)
    ensures
        r@ == join_path(base@, rest@),
{
    if rest.len() > 0 && rest[0] == 47u8 {
        let r = sub_bytes(rest.as_slice(), 0, rest.len());
        assert(rest@.subrange(0, rest.len() as int) =~= rest@);
        return r;
    }
    let mut out = sub_bytes(base.as_slice(), 0, base.len());
    assert(base@.subrange(0, base.len() as int) =~= base@);
    if base.len() > 0 && base[base.len() - 1] != 47u8 {
        out.push(47u8);
    }
    let ghost start = out@;
    let mut k: usize = 0;
    while k < rest.len()
        invariant
            k <= rest.len(),
            out@ == start + rest@.take(k as int),
        decreases rest.len() - k,
    {
        out.push(rest[k]);
        assert(start + rest@.take(k + 1) =~= (start + rest@.take(k as int)).push(rest@[k as int]));
        k += 1;
    }
    assert(rest@.take(rest.len() as int) =~= rest@);
    out
}

/// Whether the bytes start with `~/`.
fn starts_home_relative(b: &[u8]) -> (r: bool)
    ensures
        r == is_home_relative(b@),
{
    let r = b.len() >= 2 && b[0] == 126u8 && b[1] == 47u8;
    proof {
        if r {
            assert(b@.take(2) =~= seq![126u8, slash()]);
        } else if has_prefix(b@, seq![126u8, slash()]) {
            assert(b@.take(2)[0] == 126u8 && b@.take(2)[1] == slash());
        }
    }
    r
}

/// Resolves a model path against a known home directory, giving the resolved
/// path's bytes (case split out of [`resolve_model_path`], whose home directory
/// comes from the environment).
pub fn resolve_model_path_in(path: &str, home: Option<Vec<u8>>) -> (r: Result<Vec<u8>, String>)
    ensures
        match model_path_for(
            encode_utf8(path@),
            match home {
                Some(h) => Some(h@),
                None => None,
            },
        ) {
            Some(p) => r matches Ok(s) && s@ == p,
            None => r matches Err(e) && e@ == no_home_message(),
        },
{
    let b = path.as_bytes();
    if starts_home_relative(b) {
        match home {
            Some(h) => {
                let rest = sub_bytes(b, 2, b.len());
                assert(rest@ =~= b@.skip(2));
                Ok(join_path_exec(&h, &rest))
            },
            None => Err(String::from_str("Cannot determine home directory")),
        }
    } else {
        let all = sub_bytes(b, 0, b.len());
        assert(all@ =~= b@);
        Ok(all)
    }
}

/// Resolve a model path, expanding `~/` to the user's home directory; the result
/// is the resolved path's bytes.
pub fn resolve_model_path(path: &str) -> (r: Result<Vec<u8>, String>)
    ensures
        !is_home_relative(encode_utf8(path@)) ==> (r matches Ok(s) && s@ == encode_utf8(path@)),
        is_home_relative(encode_utf8(path@)) ==> match r {
            Ok(s) => exists|h: Seq<u8>| s@ == join_path(h, encode_utf8(path@).skip(2)),
            Err(e) => e@ == no_home_message(),
        },
{
    let home = if starts_home_relative(path.as_bytes()) {
        home_dir()
    } else {
        None
    };
    let r = resolve_model_path_in(path, home);
    proof {
        if is_home_relative(encode_utf8(path@)) {
            if r is Ok {
                let h = home->0@;
                assert(r->Ok_0@ == join_path(h, encode_utf8(path@).skip(2)));
            }
        }
    }
    r
}

/// The error given when the model file is missing.
pub open spec fn missing_model_message(path: Seq<char>) -> Seq<char> {
    "Whisper model not found at: "@ + path + "\nRun `badtv --download-model` to download it."@
}

/// Check that the model file exists (as `exists` reports), returning a helpful
/// error naming `path` if not.
pub fn ensure_model_exists(path: &str, exists: bool) -> (r: Result<(), String>)
    ensures
        exists <==> r is Ok,
        r matches Err(e) ==> e@ == missing_model_message(path@),
{
    if !exists {
        let mut msg = String::from_str("Whisper model not found at: ");
        msg.append(path);
        msg.append("\nRun `badtv --download-model` to download it.");
        return Err(msg);
    }
    Ok(())
}

} // verus!
