//! Paths as plain strings: the final component (base-name), the parent
//! directory, joining a directory with a file name, and `$ORIGIN`
//! substitution in search-path entries.

use vstd::prelude::*;
use crate::strutil::{replace_all, replace_str};

verus! {

/// The position of the last occurrence of `c` in `s`, or `-1` if absent.
pub open spec fn last_index_of(s: Seq<char>, c: char) -> int
    decreases s.len(),
{
    if s.len() == 0 {
        -1
    } else if s[s.len() - 1] == c {
        s.len() - 1
    } else {
        last_index_of(s.drop_last(), c)
    }
}

pub proof fn lemma_last_index_of(s: Seq<char>, c: char)
    ensures
        -1 <= last_index_of(s, c) < s.len(),
        last_index_of(s, c) >= 0 ==> s[last_index_of(s, c)] == c,
        forall|k: int| last_index_of(s, c) < k < s.len() ==> s[k] != c,
    decreases s.len(),
{
    if s.len() == 0 {
    } else if s[s.len() - 1] == c {
    } else {
        let t = s.drop_last();
        lemma_last_index_of(t, c);
        assert forall|k: int| last_index_of(s, c) < k < s.len() implies s[k] != c by {
            if k < s.len() - 1 {
                assert(t[k] == s[k]);
            }
        }
    }
}

/// The part of `s` after its last `/`; the whole of `s` when it has none.
pub open spec fn basename_spec(s: Seq<char>) -> Seq<char> {
    s.skip(last_index_of(s, '/') + 1)
}

/// The directory part of `s`: everything before the last `/`, with `/` when
/// that part is empty or `s` has no `/` at all.
pub open spec fn parent_spec(s: Seq<char>) -> Seq<char> {
    if last_index_of(s, '/') <= 0 {
        seq!['/']
    } else {
        s.take(last_index_of(s, '/'))
    }
}

/// `dir` and `name` joined with a single `/`. An absolute `name` replaces
/// the directory, as `Path::join` does — ELF permits a NEEDED entry with
/// slashes, and a leading one names the file outright. An empty `dir`
/// contributes nothing, and a `dir` already ending in `/` gets no second
/// one.
pub open spec fn path_join_spec(dir: Seq<char>, name: Seq<char>) -> Seq<char> {
    if name.len() > 0 && name[0] == '/' {
        name
    } else if dir.len() == 0 {
        name
    } else if dir[dir.len() - 1] == '/' {
        dir + name
    } else {
        dir + seq!['/'] + name
    }
}

/// The `$ORIGIN` placeholder recognised in RPATH and RUNPATH entries.
pub open spec fn origin_token() -> Seq<char> {
    seq!['$', 'O', 'R', 'I', 'G', 'I', 'N']
}

/// An RPATH entry with every `$ORIGIN` replaced by the dependent's directory.
pub open spec fn substitute_origin_spec(entry: Seq<char>, origin: Seq<char>) -> Seq<char> {
    replace_all(entry, origin_token(), origin)
}

/// Scans backwards for the last `/` in `s`; returns its position plus one, or
/// zero when there is none.
fn after_last_slash(s: &str) -> (r: usize)
    ensures
        r == last_index_of(s@, '/') + 1,
{
    let len: usize = s.unicode_len();
    let mut b: usize = len;
    proof {
        assert(s@.take(len as int) =~= s@);
    }
    while b > 0
        invariant
            0 <= b <= len,
            len == s@.len(),
            forall|k: int| b <= k < len ==> s@[k] != '/',
            last_index_of(s@, '/') == last_index_of(s@.take(b as int), '/'),
        decreases b,
    {
        proof {
            assert(s@.take(b as int).drop_last() =~= s@.take(b - 1));
        }
        if s.get_char(b - 1) == '/' {
            proof {
                let t = s@.take(b as int);
                assert(t[t.len() - 1] == '/');
            }
            return b;
        }
        b -= 1;
    }
    proof {
        assert(s@.take(0) =~= Seq::<char>::empty());
    }
    0
}

/// The final path component of `path`.
pub fn basename(path: &str) -> (r: String)
    ensures
        r@ == basename_spec(path@),
{
    let len: usize = path.unicode_len();
    let cut = after_last_slash(path);
    proof {
        lemma_last_index_of(path@, '/');
    }
    let r = String::from_str(path.substring_char(cut, len));
    proof {
        assert(path@.subrange(cut as int, len as int) =~= path@.skip(
            last_index_of(path@, '/') + 1,
        ));
    }
    r
}

/// The directory containing `path`, with `/` standing in for an empty or
/// absent parent.
pub fn parent_dir(path: &str) -> (r: String)
    ensures
        r@ == parent_spec(path@),
{
    let cut = after_last_slash(path);
    proof {
        lemma_last_index_of(path@, '/');
    }
    if cut <= 1 {
        let r = String::from_str("/");
        proof {
            reveal_strlit("/");
            assert(r@ =~= seq!['/']);
        }
        r
    } else {
        let r = String::from_str(path.substring_char(0, cut - 1));
        proof {
            assert(path@.subrange(0, cut - 1) =~= path@.take(last_index_of(path@, '/')));
        }
        r
    }
}

/// Joins a directory and a file name with a `/`.
pub fn path_join(dir: &str, name: &str) -> (r: String)
    ensures
        r@ == path_join_spec(dir@, name@),
{
    let nlen: usize = name.unicode_len();
    if nlen > 0 && name.get_char(0) == '/' {
        return String::from_str(name);
    }
    let dlen: usize = dir.unicode_len();
    if dlen == 0 {
        return String::from_str(name);
    }
    let mut r = String::from_str(dir);
    if dir.get_char(dlen - 1) != '/' {
        r.append("/");
        proof {
            reveal_strlit("/");
            assert("/"@ =~= seq!['/']);
        }
    }
    r.append(name);
    proof {
        if dir@[dir@.len() - 1] != '/' {
            assert(r@ =~= dir@ + seq!['/'] + name@);
        }
    }
    r
}

/// Replaces every `$ORIGIN` in a search-path entry by the dependent library's
/// own directory.
pub fn substitute_origin(entry: &str, origin: &str) -> (r: String)
    ensures
        r@ == substitute_origin_spec(entry@, origin@),
{
    let pat = "$ORIGIN";
    proof {
        reveal_strlit("$ORIGIN");
        assert(pat@ =~= origin_token());
    }
    replace_str(entry, pat, origin)
}

} // verus!
