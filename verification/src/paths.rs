//! What a path's last component is called, which folder it is in, and
//! whether two paths are one, as `std::path::Path` reads them.
//!
//! Paths are carried here as text. Which part of one is its file name is the
//! standard library's decision — components, separators, `.` and `..` — and
//! is named rather than rewritten; what the stem is, given the name, is a
//! few lines of the library's documentation and is written out.

use vstd::prelude::*;

verus! {

/// What `Path::file_name` answers for a path, as text.
pub uninterp spec fn file_name_of(path: Seq<char>) -> Option<Seq<char>>;

/// Where the last `.` of a name is, or `-1` where it has none.
pub open spec fn last_dot(name: Seq<char>) -> int
    decreases name.len(),
{
    if name.len() == 0 {
        -1
    } else if name.last() == '.' {
        name.len() - 1
    } else {
        last_dot(name.drop_last())
    }
}

/// A file name's stem, as `Path::file_stem` documents it: the whole name where
/// it has no `.` or its only `.` is its first character, and otherwise the
/// part before the last `.`.
pub open spec fn stem_of_name(name: Seq<char>) -> Seq<char> {
    if last_dot(name) <= 0 {
        name
    } else {
        name.take(last_dot(name))
    }
}

/// `Path::file_name`: the final component of a path, or `None` where it ends
/// in `..` or is a root.
#[verifier::external_body]
pub(crate) fn file_name(path: &str) -> (name: Option<&str>)
    ensures
        match name {
            Some(n) => file_name_of(path@) == Some(n@),
            None => file_name_of(path@) is None,
        },
{
    std::path::Path::new(path).file_name().and_then(|name| name.to_str())
}

/// Where the last `.` of a run of characters is, or `None` where there is
/// none.
fn find_last_dot(chars: &Vec<char>) -> (at: Option<usize>)
    ensures
        match at {
            Some(i) => last_dot(chars@) == i as int && i < chars@.len(),
            None => last_dot(chars@) == -1,
        },
{
    let mut k = chars.len();
    assert(chars@.take(k as int) =~= chars@);
    while k > 0 && chars[k - 1] != '.'
        invariant
            k <= chars@.len(),
            last_dot(chars@) == last_dot(chars@.take(k as int)),
        decreases k,
    {
        proof {
            let t = chars@.take(k as int);
            assert(t.drop_last() =~= chars@.take(k - 1));
            assert(t.last() == chars@[k - 1]);
        }
        k -= 1;
    }
    if k == 0 {
        assert(chars@.take(0).len() == 0);
        None
    } else {
        assert(chars@.take(k as int).last() == '.');
        Some(k - 1)
    }
}

/// `Path::file_stem`, as its documentation states it over `Path::file_name`:
/// the name without its last extension — the whole name where it has no `.`
/// or only the `.` it begins with.
pub(crate) fn file_stem(path: &str) -> (stem: Option<String>)
    ensures
        match stem {
            Some(s) => file_name_of(path@) matches Some(name) && s@ == stem_of_name(name),
            None => file_name_of(path@) is None,
        },
{
    let name = match file_name(path) {
        Some(n) => n,
        None => return None,
    };
    let chars = crate::text::chars_of(name);
    assert(last_dot(chars@) == last_dot(name@));
    match find_last_dot(&chars) {
        Some(dot) if dot > 0 => {
            let stem = crate::text::string_from(&crate::text::copy_range(&chars, 0, dot));
            assert(stem@ =~= name@.take(dot as int));
            Some(stem)
        },
        _ => Some(name.to_owned()),
    }
}

/// `Path::extension`, as its documentation states it over `Path::file_name`:
/// what follows the last `.` of the name — nothing where there is no name,
/// no `.` in it, or only the `.` it begins with.
pub(crate) fn extension(path: &str) -> (ending: Option<String>)
    ensures
        match ending {
            Some(e) => file_name_of(path@) matches Some(name) && last_dot(name) > 0 && e@
                == name.skip(last_dot(name) + 1),
            None => match file_name_of(path@) {
                Some(name) => last_dot(name) <= 0,
                None => true,
            },
        },
{
    let name = match file_name(path) {
        Some(n) => n,
        None => return None,
    };
    let chars = crate::text::chars_of(name);
    match find_last_dot(&chars) {
        Some(dot) if dot > 0 => {
            let n = chars.len();
            assert(dot < n);
            let ending = crate::text::string_from(&crate::text::copy_range(&chars, dot + 1, n));
            assert(ending@ =~= name@.skip(dot + 1));
            Some(ending)
        },
        _ => None,
    }
}

/// What `Path::parent` answers for a path, as text.
pub uninterp spec fn parent_of(path: Seq<char>) -> Option<Seq<char>>;

/// Whether `Path`'s `==` holds of two paths, which compares them component by
/// component rather than letter by letter.
pub uninterp spec fn same_path(a: Seq<char>, b: Seq<char>) -> bool;

/// `Path::parent`: the path without its final component, or `None` where it
/// ends in a root or a prefix, or is empty.
#[verifier::external_body]
pub(crate) fn parent(path: &str) -> (up: Option<&str>)
    ensures
        match up {
            Some(u) => parent_of(path@) == Some(u@),
            None => parent_of(path@) is None,
        },
{
    std::path::Path::new(path).parent().and_then(|up| up.to_str())
}

/// `Path`'s `==`: whether two paths have the same components. A path is the
/// same path as itself, `Path` being `Eq`.
#[verifier::external_body]
pub(crate) fn same(a: &str, b: &str) -> (one: bool)
    ensures
        one == same_path(a@, b@),
        a@ == b@ ==> one,
{
    std::path::Path::new(a) == std::path::Path::new(b)
}

} // verus!
