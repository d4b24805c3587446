//! Paths of assets: where the compressed copy of an asset is stored, and the
//! extension that tells an asset's media type.
//!
//! A path is a string of components separated by `/`.

use vstd::prelude::*;
use vstd::string::{StrSliceExecFns, StringExecFns};

use crate::algorithm::Algorithm;
use crate::text::chars_of;

verus! {

/// The path of the compressed copy of the asset at `path`: the asset's path
/// with a dot and the coding's token behind it, so that the copy lies beside
/// the asset.
pub open spec fn artifact_path(path: Seq<char>, algorithm: Algorithm) -> Seq<char> {
    path + seq!['.'] + algorithm.token()
}

/// The greatest index before `to` at which `c` stands in `s`; -1 if it stands
/// nowhere there.
pub open spec fn last_position(s: Seq<char>, c: char, to: int) -> int
    decreases to,
{
    if 0 < to <= s.len() && s[to - 1] != c {
        last_position(s, c, to - 1)
    } else {
        to - 1
    }
}

/// `last_position` is the greatest index that holds the character.
pub proof fn lemma_last_position(s: Seq<char>, c: char, to: int)
    requires
        0 <= to <= s.len(),
    ensures
        -1 <= last_position(s, c, to) < to,
        last_position(s, c, to) >= 0 ==> s[last_position(s, c, to)] == c,
        forall|j: int| last_position(s, c, to) < j < to ==> s[j] != c,
    decreases to,
{
    if 0 < to && s[to - 1] != c {
        lemma_last_position(s, c, to - 1);
    }
}

/// Where the last component of `path` that counts ends, looking back from
/// `to`: separators at the end are passed over, and so are components that
/// are a single dot.
pub open spec fn name_end(path: Seq<char>, to: int) -> int
    decreases to,
{
    if 0 < to <= path.len() && path[to - 1] == '/' {
        name_end(path, to - 1)
    } else if 0 < to <= path.len() && path[to - 1] == '.' && (to == 1 || path[to - 2] == '/') {
        name_end(path, to - 1)
    } else {
        to
    }
}

/// Where the last component of `path` that counts starts: behind the last
/// separator before its end.
pub open spec fn name_start(path: Seq<char>) -> int {
    last_position(path, '/', name_end(path, path.len() as int)) + 1
}

/// The name of the file that a path leads to: its last component, where
/// separators at the end and components that are a single dot do not count.
/// A path without such a component has none, nor has one that ends in `..`.
pub open spec fn file_name(path: Seq<char>) -> Option<Seq<char>> {
    let end = name_end(path, path.len() as int);
    let name = path.subrange(name_start(path), end);
    if end <= 0 || name == seq!['.', '.'] {
        None
    } else {
        Some(name)
    }
}

/// The extension of the file that a path leads to: what follows the last dot
/// of the file's name. A name without a dot has none, nor has one whose only
/// dot is its first character.
pub open spec fn extension(path: Seq<char>) -> Option<Seq<char>> {
    let end = name_end(path, path.len() as int);
    let dot = last_position(path, '.', end);
    if file_name(path) is None || dot <= name_start(path) {
        None
    } else {
        Some(path.subrange(dot + 1, end))
    }
}

/// The last component that counts is not empty, holds no separator, and is
/// not a single dot; behind it stand only separators and single dots.
pub proof fn lemma_file_name(path: Seq<char>)
    ensures
        0 <= name_start(path) <= name_end(path, path.len() as int) <= path.len(),
        match file_name(path) {
            Some(name) => {
                &&& name.len() > 0
                &&& !name.contains('/')
                &&& name != seq!['.']
                &&& name != seq!['.', '.']
            },
            None => true,
        },
        forall|j: int|
            name_end(path, path.len() as int) <= j < path.len() ==> path[j] == '/' || path[j] == '.',
{
    let len = path.len() as int;
    lemma_name_end(path, len);
    let end = name_end(path, len);
    lemma_last_position(path, '/', end);
    let start = name_start(path);
    let name = path.subrange(start, end);
    if end > 0 {
        assert(start < end);
        assert(!name.contains('/')) by {
            if name.contains('/') {
                let k = choose|k: int| 0 <= k < name.len() && name[k] == '/';
                assert(path[start + k] == '/');
            }
        }
        if name == seq!['.'] {
            assert(name.len() == 1);
            assert(path[end - 1] == name[0]);
            if end - 1 > 0 {
                assert(path[end - 2] == '/');
            }
        }
    }
}

proof fn lemma_name_end(path: Seq<char>, to: int)
    requires
        0 <= to <= path.len(),
    ensures
        0 <= name_end(path, to) <= to,
        forall|j: int| name_end(path, to) <= j < to ==> path[j] == '/' || path[j] == '.',
        name_end(path, to) > 0 ==> {
            let end = name_end(path, to);
            &&& path[end - 1] != '/'
            &&& !(path[end - 1] == '.' && (end == 1 || path[end - 2] == '/'))
        },
    decreases to,
{
    if 0 < to && path[to - 1] == '/' {
        lemma_name_end(path, to - 1);
    } else if 0 < to && path[to - 1] == '.' && (to == 1 || path[to - 2] == '/') {
        lemma_name_end(path, to - 1);
    }
}

/// The greatest index before `to` at which `c` stands in `s`, and one more;
/// 0 if it stands nowhere there.
fn after_last(s: &[char], c: char, from: usize, to: usize) -> (next: usize)
    requires
        from <= to <= s@.len(),
    ensures
        from <= next <= to,
        next > from ==> next == last_position(s@.skip(from as int), c, to - from) + 1 + from,
        next == from ==> last_position(s@.skip(from as int), c, to - from) == -1,
{
    let ghost tail = s@.skip(from as int);
    let mut i: usize = to;
    while i > from && s[i - 1] != c
        invariant
            from <= i <= to <= s@.len(),
            tail == s@.skip(from as int),
            last_position(tail, c, to - from) == last_position(tail, c, i - from),
        decreases i,
    {
        assert(tail[i - 1 - from] == s@[i - 1]);
        i = i - 1;
    }
    proof {
        if i > from {
            assert(tail[i - 1 - from] == s@[i - 1]);
        }
    }
    i
}

/// The path of the compressed copy of the asset at `path`.
pub fn artifact_path_of(path: &str, algorithm: Algorithm) -> (artifact: String)
    ensures
        artifact@ == artifact_path(path@, algorithm),
{
    let mut artifact = String::from_str(path);
    proof {
        reveal_strlit(".");
    }
    assert("."@ =~= seq!['.']);
    artifact.append(".");
    artifact.append(algorithm.name());
    artifact
}

/// The extension of the file that a path leads to.
pub fn extension_of(path: &str) -> (found: Option<&str>)
    ensures
        found is Some == extension(path@) is Some,
        found matches Some(ext) ==> Some(ext@) == extension(path@),
{
    let chars = chars_of(path);
    let s = chars.as_slice();
    let mut end: usize = s.len();
    while end > 0 && (s[end - 1] == '/' || (s[end - 1] == '.' && (end == 1 || s[end - 2] == '/')))
        invariant
            end <= s@.len(),
            name_end(s@, s@.len() as int) == name_end(s@, end as int),
        decreases end,
    {
        end = end - 1;
    }
    if end == 0 {
        return None;
    }
    assert(s@.skip(0) =~= s@);
    let start = after_last(s, '/', 0, end);
    assert(start == name_start(path@));
    proof {
        lemma_last_position(s@, '/', end as int);
    }
    if end - start == 2 && s[start] == '.' && s[start + 1] == '.' {
        assert(s@.subrange(start as int, end as int) =~= seq!['.', '.']);
        return None;
    }
    proof {
        let name = s@.subrange(start as int, end as int);
        if name == seq!['.', '.'] {
            assert(name.len() == 2);
            assert(s@[start as int] == name[0]);
            assert(s@[start + 1] == name[1]);
        }
    }
    let after_dot = after_last(s, '.', 0, end);
    if after_dot <= start + 1 {
        return None;
    }
    Some(path.substring_char(after_dot, end))
}

} // verus!
