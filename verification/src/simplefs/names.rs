//! Paths and entry names.
use vstd::prelude::*;
use vstd::string::*;
use vstd::utf8::encode_utf8;

use crate::block::BLOCK_SIZE;
use crate::error::{Error, Result};
use crate::simplefs::constants::DIRENT_NAME_MAX;
use crate::text::{chars_of, contains_char, join2, last_position, lowercase, rfind_char, str_eq, texts, to_lowercase, trim_end, trim_end_char, trim_start_char, trim_str, trimmed};

verus! {

/// The root path.
pub open spec fn root_path() -> Seq<char> {
    seq!['/']
}

/// The directory a path lies in; the root lies in none.
pub open spec fn parent_text(path: Seq<char>) -> Option<Seq<char>> {
    if path == root_path() {
        None
    } else {
        let t = trim_end(path, '/');
        let p = last_position(t, '/');
        if p <= 0 {
            Some(root_path())
        } else {
            Some(t.take(p))
        }
    }
}

/// The last component of a path; the root stands for itself.
pub open spec fn base_text(path: Seq<char>) -> Seq<char> {
    let t = trim_end(path, '/');
    if t.len() == 0 {
        root_path()
    } else {
        t.skip(last_position(t, '/') + 1)
    }
}

/// A bound on how many directories lie above a path.
pub open spec fn path_height(path: Seq<char>) -> nat {
    if path == root_path() {
        0
    } else {
        path.len() + 1
    }
}

pub proof fn lemma_last_position_bound(s: Seq<char>, c: char)
    ensures
        -1 <= last_position(s, c) < s.len(),
    decreases s.len(),
{
    if s.len() > 0 {
        lemma_last_position_bound(s.drop_last(), c);
    }
}

pub proof fn lemma_trim_end_shorter(s: Seq<char>, c: char)
    ensures
        trim_end(s, c).len() <= s.len(),
    decreases s.len(),
{
    if s.len() > 0 && s.last() == c {
        lemma_trim_end_shorter(s.drop_last(), c);
    }
}

/// Every parent lies closer to the root.
pub proof fn lemma_parent_is_higher(path: Seq<char>)
    ensures
        parent_text(path) matches Some(p) ==> path_height(p) < path_height(path),
{
    let t = trim_end(path, '/');
    lemma_trim_end_shorter(path, '/');
    lemma_last_position_bound(t, '/');
}

/// The directories above a path, outermost first.
pub open spec fn ancestors(path: Seq<char>) -> Seq<Seq<char>>
    decreases path_height(path),
{
    proof {
        lemma_parent_is_higher(path);
    }
    match parent_text(path) {
        None => Seq::empty(),
        Some(p) => if path_height(p) < path_height(path) {
            ancestors(p).push(p)
        } else {
            Seq::empty()
        },
    }
}

/// Whether two names denote the same entry under the volume's case policy.
pub open spec fn same_name(left: Seq<char>, right: Seq<char>, case_sensitive: bool) -> bool {
    if case_sensitive {
        left == right
    } else {
        lowercase(left) == lowercase(right)
    }
}

/// Whether a directory entry may carry this name.
pub open spec fn name_ok(name: Seq<char>) -> bool {
    &&& name.len() > 0
    &&& !name.contains('/')
    &&& encode_utf8(name).len() <= DIRENT_NAME_MAX
}

/// Blocks that hold `n` bytes.
pub open spec fn block_span(n: int) -> int {
    (n + 511) / 512
}

/// The path an image entry ends up under.
pub open spec fn image_path(path: Seq<char>) -> core::result::Result<Seq<char>, Error> {
    let t = trimmed(path);
    if t.contains('\\') {
        Err(Error::InvalidArgument)
    } else if t.len() > 0 && t[0] == '/' {
        Ok(t)
    } else {
        Ok(root_path() + t)
    }
}

/// Whether a path names the root.
pub fn is_root(path: &str) -> (r: bool)
    ensures
        r == (path@ == root_path()),
{
    proof {
        reveal_strlit("/");
    }
    assert("/"@ == root_path());
    str_eq(path, "/")
}

/// Absolute form of an image entry's path.
pub fn normalize_image_path(path: &str) -> (r: Result<String>)
    ensures
        match r {
            Ok(s) => image_path(path@) == Ok::<Seq<char>, Error>(s@),
            Err(e) => image_path(path@) == Err::<Seq<char>, Error>(e),
        },
{
    let normalized = trim_str(path);
    if contains_char(normalized, '\\') {
        return Err(Error::InvalidArgument);
    }
    if normalized.unicode_len() > 0 && normalized.get_char(0) == '/' {
        Ok(normalized.to_owned())
    } else {
        let rest = trim_start_char(normalized, '/');
        proof {
            reveal_strlit("/");
        }
        assert("/"@ == root_path());
        Ok(join2("/", rest))
    }
}

/// The directory a path lies in; the root lies in none.
pub fn parent_path(path: &str) -> (r: Option<String>)
    ensures
        match r {
            Some(p) => parent_text(path@) == Some(p@),
            None => parent_text(path@) is None,
        },
{
    if is_root(path) {
        return None;
    }
    let trimmed_path = trim_end_char(path, '/');
    let chars = chars_of(trimmed_path);
    proof {
        reveal_strlit("/");
    }
    assert("/"@ == root_path());
    match rfind_char(&chars, '/') {
        Some(p) => {
            if p == 0 {
                Some("/".to_owned())
            } else {
                assert(trimmed_path@.subrange(0, p as int) == trimmed_path@.take(p as int));
                Some(trimmed_path.substring_char(0, p).to_owned())
            }
        },
        None => Some("/".to_owned()),
    }
}

/// The last component of a path; the root stands for itself.
pub fn base_name<'a>(path: &'a str) -> (r: &'a str)
    ensures
        r@ == base_text(path@),
{
    let trimmed_path = trim_end_char(path, '/');
    let chars = chars_of(trimmed_path);
    if chars.len() == 0 {
        proof {
            reveal_strlit("/");
        }
        assert("/"@ == root_path());
        return "/";
    }
    match rfind_char(&chars, '/') {
        Some(p) => {
            assert(trimmed_path@.subrange(p + 1, chars@.len() as int) == trimmed_path@.skip(p + 1));
            trimmed_path.substring_char(p + 1, chars.len())
        },
        None => {
            assert(trimmed_path@.skip(0) == trimmed_path@);
            trimmed_path
        },
    }
}

/// The directories above a path, outermost first.
pub fn parent_paths(path: &str) -> (r: Vec<String>)
    ensures
        texts(r@) == ancestors(path@),
    decreases path_height(path@),
{
    proof {
        lemma_parent_is_higher(path@);
    }
    match parent_path(path) {
        None => {
            let out: Vec<String> = Vec::new();
            assert(texts(out@) == ancestors(path@));
            out
        },
        Some(parent) => {
            let mut out = parent_paths(parent.as_str());
            let ghost above = texts(out@);
            out.push(parent);
            assert(texts(out@) == above.push(parent@));
            out
        },
    }
}

/// Whether two names denote the same entry under the volume's case policy.
pub fn names_match(left: &str, right: &str, case_sensitive: bool) -> (r: bool)
    ensures
        r == same_name(left@, right@, case_sensitive),
{
    if case_sensitive {
        str_eq(left, right)
    } else {
        to_lowercase(left) == to_lowercase(right)
    }
}

/// Blocks that hold `byte_len` bytes.
pub fn blocks_for(byte_len: usize) -> (r: usize)
    ensures
        r == block_span(byte_len as int),
{
    if byte_len == 0 {
        0
    } else {
        (byte_len - 1) / BLOCK_SIZE + 1
    }
}

/// Accepts exactly the names a directory entry may carry.
pub fn validate_dir_entry_name(name: &str) -> (r: Result<()>)
    ensures
        r == (if name_ok(name@) {
            Ok::<(), Error>(())
        } else {
            Err(Error::InvalidArgument)
        }),
{
    if name.is_empty() || contains_char(name, '/') || name.as_bytes().len() > DIRENT_NAME_MAX {
        return Err(Error::InvalidArgument);
    }
    Ok(())
}

} // verus!
