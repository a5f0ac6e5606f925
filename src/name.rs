use vstd::prelude::*;

verus! {

/// The final component of a path, as the standard library's path parsing finds it.
pub uninterp spec fn final_component(path: Seq<char>) -> Option<Seq<char>>;

/// Whether `s` is the parent-directory marker `..`.
pub open spec fn is_parent(s: Seq<char>) -> bool {
    s.len() == 2 && s[0] == '.' && s[1] == '.'
}

/// Whether the path ends with the parent-directory marker `..`.
pub open spec fn ends_in_parent(path: Seq<char>) -> bool {
    ||| is_parent(path)
    ||| {
        &&& path.len() >= 3
        &&& path[path.len() - 3] == '/'
        &&& path[path.len() - 2] == '.'
        &&& path[path.len() - 1] == '.'
    }
}

/// Whether `name` can name an entry: it is not empty and not `..`.
pub open spec fn is_name(name: Seq<char>) -> bool {
    name.len() > 0 && !is_parent(name)
}

/// The name of the entry at `path`: its final component, when that can name an entry.
pub open spec fn name_of(path: Seq<char>) -> Option<Seq<char>> {
    match final_component(path) {
        Some(name) => if is_name(name) {
            Some(name)
        } else {
            None
        },
        None => None,
    }
}

/// Relies on `std::path::Path::file_name`: the final component of the path, and none
/// when the path terminates in `..`. A `&str` path holds valid UTF-8, so the lossy
/// conversion of the component keeps it as it is.
#[verifier::external_body]
fn file_name(path: &str) -> (r: Option<String>)
    ensures
        match r {
            Some(name) => final_component(path@) == Some(name@),
            None => final_component(path@) is None,
        },
        ends_in_parent(path@) ==> r is None,
{
    match std::path::Path::new(path).file_name() {
        Some(name) => Some(name.to_string_lossy().into_owned()),
        None => None,
    }
}

/// The name of the entry at `path`, or none where the path gives it no name.
pub fn entry_name(path: &str) -> (r: Option<String>)
    ensures
        match r {
            Some(name) => name_of(path@) == Some(name@),
            None => name_of(path@) is None,
        },
        ends_in_parent(path@) ==> r is None,
{
    match file_name(path) {
        Some(name) => {
            if !name.as_str().is_empty() && !is_parent_marker(name.as_str()) {
                Some(name)
            } else {
                None
            }
        },
        None => None,
    }
}

fn is_parent_marker(s: &str) -> (r: bool)
    ensures
        r == is_parent(s@),
{
    s.unicode_len() == 2 && s.get_char(0) == '.' && s.get_char(1) == '.'
}

} // verus!
