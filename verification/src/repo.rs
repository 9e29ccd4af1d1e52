//! The `repository:branch` context shown for an agent.

use vstd::prelude::*;

use crate::text::opt_chars;

verus! {

/// What `Path::parent` gives for a path, as text.
pub uninterp spec fn path_parent(path: Seq<char>) -> Option<Seq<char>>;

/// What `Path::file_name` gives for a path, as text.
pub uninterp spec fn path_file_name(path: Seq<char>) -> Option<Seq<char>>;

/// The path without its final component, if it has one.
///
/// Trusted: calls `std::path::Path::parent` on `path` and converts the
/// resulting path back to text; the contract only names the result.
#[verifier::external_body]
fn parent_of(path: &str) -> (r: Option<String>)
    ensures
        opt_chars(r) == path_parent(path@),
{
    match std::path::Path::new(path).parent() {
        Some(p) => Some(p.to_string_lossy().into_owned()),
        None => None,
    }
}

/// The final component of the path, if it has one.
///
/// Trusted: calls `std::path::Path::file_name` on `path` and converts the
/// resulting name back to text; the contract only names the result.
#[verifier::external_body]
fn file_name_of(path: &str) -> (r: Option<String>)
    ensures
        opt_chars(r) == path_file_name(path@),
{
    match std::path::Path::new(path).file_name() {
        Some(n) => Some(n.to_string_lossy().into_owned()),
        None => None,
    }
}

/// The characters of an optional string slice.
pub open spec fn opt_str_chars(o: Option<&str>) -> Option<Seq<char>> {
    match o {
        Some(s) => Some(s@),
        None => None,
    }
}

/// The path starts with `/`.
pub open spec fn is_absolute(path: Seq<char>) -> bool {
    path.len() > 0 && path[0] == '/'
}

/// The name of the directory that holds the common git directory: the
/// main repository of a worktree.
pub open spec fn main_repo_name(common_dir: Seq<char>) -> Option<Seq<char>> {
    match path_parent(common_dir) {
        Some(p) => path_file_name(p),
        None => None,
    }
}

/// The repository name: the main repository's directory name when the
/// common git directory is an absolute path that has one, else the name of
/// the top-level directory.
pub open spec fn repo_name(toplevel: Seq<char>, common_dir: Option<Seq<char>>) -> Option<Seq<char>> {
    match common_dir {
        Some(cd) if is_absolute(cd) && main_repo_name(cd) is Some => main_repo_name(cd),
        _ => path_file_name(toplevel),
    }
}

/// Whether `path` starts with `/`.
fn starts_with_slash(path: &str) -> (r: bool)
    ensures
        r == is_absolute(path@),
{
    path.unicode_len() > 0 && path.get_char(0) == '/'
}

/// Picks the repository name from the two candidates: the name found from
/// the common git directory when that directory is absolute and the name
/// exists, else the name of the top-level directory.
pub fn pick_repo_name(
    common_dir: Option<&str>,
    main_name: Option<String>,
    toplevel_name: Option<String>,
) -> (r: Option<String>)
    ensures
        r == (if opt_str_chars(common_dir) matches Some(cd) && is_absolute(cd) && main_name is Some {
            main_name
        } else {
            toplevel_name
        }),
{
    if let Some(cd) = common_dir {
        if starts_with_slash(cd) && main_name.is_some() {
            return main_name;
        }
    }
    toplevel_name
}

/// The name of the repository of a working tree, from its top-level
/// directory and its common git directory.
pub fn repo_name_from_paths(toplevel: &str, common_dir: Option<&str>) -> (r: Option<String>)
    ensures
        opt_chars(r) == repo_name(toplevel@, opt_str_chars(common_dir)),
{
    let main_name = match common_dir {
        Some(cd) => {
            if starts_with_slash(cd) {
                match parent_of(cd) {
                    Some(p) => file_name_of(p.as_str()),
                    None => None,
                }
            } else {
                None
            }
        },
        None => None,
    };
    let toplevel_name = file_name_of(toplevel);
    pick_repo_name(common_dir, main_name, toplevel_name)
}

/// The context text `{repository}:{branch}`.
pub fn repo_context(repo: &str, branch: &str) -> (r: String)
    ensures
        r@ == repo@ + ":"@ + branch@,
{
    let mut r = String::new();
    r.append(repo);
    r.append(":");
    r.append(branch);
    assert(r@ =~= repo@ + ":"@ + branch@);
    r
}

} // verus!
