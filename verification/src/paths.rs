//! Paths held as strings, with `/` separating their components.
use vstd::prelude::*;
use crate::text::{append_str, str_chars, string_of, chars_range_to_string};

verus! {

/// `base` joined with `name`, as `Path::join` does on Unix: an absolute
/// `name` replaces `base`; otherwise a separator goes between them unless
/// `base` is empty or already ends with one.
pub open spec fn joined(base: Seq<char>, name: Seq<char>) -> Seq<char> {
    if name.len() > 0 && name[0] == '/' {
        name
    } else if base.len() == 0 || base.last() == '/' {
        base + name
    } else {
        base + seq!['/'] + name
    }
}

/// `base` joined with `name` (see `joined`).
pub fn join_path(base: &str, name: &str) -> (r: String)
    ensures
        r@ == joined(base@, name@),
{
    let n = str_chars(name);
    if n.len() > 0 && n[0] == '/' {
        return string_of(name);
    }
    let b = str_chars(base);
    let mut out = string_of(base);
    if b.len() > 0 && b[b.len() - 1] != '/' {
        out.push('/');
    }
    append_str(&mut out, name);
    out
}

/// What `Path::parent` gives for the path `p` on Unix.
pub uninterp spec fn parent_of(p: Seq<char>) -> Option<Seq<char>>;

/// `Path::parent`: the path without its final component, if it has one;
/// being shorter by that component, the parent has fewer characters.
#[verifier::external_body]
pub(crate) fn path_parent(p: &str) -> (r: Option<String>)
    ensures
        match r {
            Some(q) => parent_of(p@) == Some(q@) && q@.len() < p@.len(),
            None => parent_of(p@) is None,
        },
{
    match std::path::Path::new(p).parent() {
        Some(q) => Some(q.to_string_lossy().into_owned()),
        None => None,
    }
}

/// Whether `Path` compares the paths `a` and `b` equal on Unix.
pub uninterp spec fn same_path(a: Seq<char>, b: Seq<char>) -> bool;

/// `==` on `std::path::Path`, which compares paths component by component
/// (so `/a/` and `/a` are equal); a path is equal to itself.
#[verifier::external_body]
pub(crate) fn paths_equal(a: &str, b: &str) -> (r: bool)
    ensures
        r == same_path(a@, b@),
        a@ == b@ ==> r,
{
    std::path::Path::new(a) == std::path::Path::new(b)
}

/// What `Path::file_name` gives for the path `p` on Unix.
pub uninterp spec fn file_name_of(p: Seq<char>) -> Option<Seq<char>>;

/// `Path::file_name`: the final component of `p`, if it is a normal one.
#[verifier::external_body]
pub(crate) fn path_file_name(p: &str) -> (r: Option<String>)
    ensures
        match r {
            Some(q) => file_name_of(p@) == Some(q@),
            None => file_name_of(p@) is None,
        },
{
    match std::path::Path::new(p).file_name() {
        Some(q) => Some(q.to_string_lossy().into_owned()),
        None => None,
    }
}

/// The position of the dot that separates the extension of the file name
/// `name`, as `Path::extension` and `Path::file_stem` find it: the last dot,
/// unless nothing stands before it or the name is `..`.
pub open spec fn extension_dot(name: Seq<char>) -> Option<int> {
    if name == seq!['.', '.'] {
        None
    } else if exists|i: int| 0 < i < name.len() && name[i] == '.' && forall|j: int| i < j < name.len() ==> name[j] != '.' {
        Some(choose|i: int| 0 < i < name.len() && name[i] == '.' && forall|j: int| i < j < name.len() ==> name[j] != '.')
    } else {
        None
    }
}

/// Splits the file name `name` into its stem and extension.
pub fn split_extension(name: &str) -> (r: Option<(String, String)>)
    ensures
        match r {
            Some((stem, ext)) => extension_dot(name@) matches Some(i) && stem@ == name@.take(i) && ext@
                == name@.skip(i + 1),
            None => extension_dot(name@) is None,
        },
{
    let v = str_chars(name);
    if v.len() == 2 && v[0] == '.' && v[1] == '.' {
        assert(v@ =~= seq!['.', '.']);
        return None;
    }
    let mut i = v.len();
    while i > 0 && v[i - 1] != '.'
        invariant
            i <= v.len(),
            v@ == name@,
            forall|j: int| i <= j < v.len() ==> v@[j] != '.',
        decreases i,
    {
        i = i - 1;
    }
    if i <= 1 {
        proof {
            assert(!exists|k: int| 0 < k < name@.len() && name@[k] == '.' && forall|j: int| k < j < name@.len() ==> name@[j] != '.');
        }
        return None;
    }
    let dot = i - 1;
    let stem = chars_range_to_string(&v, 0, dot);
    let ext = chars_range_to_string(&v, dot + 1, v.len());
    proof {
        let k = dot as int;
        assert(0 < k < name@.len() && name@[k] == '.' && forall|j: int| k < j < name@.len() ==> name@[j] != '.');
        let c = choose|c: int| 0 < c < name@.len() && name@[c] == '.' && forall|j: int| c < j < name@.len() ==> name@[j] != '.';
        if c < k {
        } else if c > k {
        }
        assert(c == k);
        if name@ == seq!['.', '.'] {
            assert(v@.len() == 2);
            assert(v@[0] == '.' && v@[1] == '.');
        }
        assert(v@.subrange(0, k) =~= name@.take(k));
        assert(v@.subrange(k + 1, v@.len() as int) =~= name@.skip(k + 1));
    }
    Some((stem, ext))
}

} // verus!
