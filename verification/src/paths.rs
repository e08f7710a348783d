//! Path-string decisions: tilde expansion, picking a configuration file
//! inside a directory, and choosing the base directory for a rebuild.
//!
//! These functions decide from plain values; testing what actually exists on
//! disk is the caller's side, which passes the outcome of those tests in.

use vstd::prelude::*;

use crate::PathError;
use crate::text::rfind_char;
use crate::text::rfind_char_in;

verus! {

/// The file names tried, in order, when a directory is given.
pub open spec fn candidate_names() -> Seq<Seq<char>> {
    seq!["configuration.nix"@, "flake.nix"@, "default.nix"@, "home.nix"@, "pkgs.nix"@]
}

/// The candidate file names as owned strings, in the order they are tried.
pub fn candidate_file_names() -> (r: Vec<String>)
    ensures
        r@.len() == candidate_names().len(),
        forall|i: int| 0 <= i < r@.len() ==> r@[i]@ == candidate_names()[i],
{
    let mut out: Vec<String> = Vec::new();
    out.push(String::from_str("configuration.nix"));
    out.push(String::from_str("flake.nix"));
    out.push(String::from_str("default.nix"));
    out.push(String::from_str("home.nix"));
    out.push(String::from_str("pkgs.nix"));
    out
}

/// A directory path joined with a file name by a single separator.
pub open spec fn join_path_spec(dir: Seq<char>, name: Seq<char>) -> Seq<char> {
    if dir.len() > 0 && dir.last() == '/' {
        dir + name
    } else {
        dir + "/"@ + name
    }
}

/// Join a directory path and a file name, executable.
pub fn join_path(dir: &str, name: &str) -> (r: String)
    ensures
        r@ == join_path_spec(dir@, name@),
{
    let n = dir.unicode_len();
    if n > 0 && dir.get_char(n - 1) == '/' {
        dir.to_owned().concat(name)
    } else {
        let r = dir.to_owned().concat("/").concat(name);
        proof {
            assert(r@ =~= dir@ + "/"@ + name@);
        }
        r
    }
}

/// The first index at or after `i` that holds `true`, or `-1`.
pub open spec fn first_true(bs: Seq<bool>, i: int) -> int
    decreases bs.len() - i,
{
    if i < 0 || i >= bs.len() {
        -1
    } else if bs[i] {
        i
    } else {
        first_true(bs, i + 1)
    }
}

/// What resolving gives: the path itself when it is a file; inside a
/// directory, the first candidate that is a file; otherwise an error.
pub open spec fn resolve_spec(
    path: Seq<char>,
    path_is_file: bool,
    path_is_dir: bool,
    candidate_is_file: Seq<bool>,
) -> Result<Seq<char>, PathError> {
    if path_is_file {
        Ok(path)
    } else if path_is_dir {
        let i = first_true(candidate_is_file, 0);
        if i == -1 {
            Err(PathError::NoCandidateFound)
        } else {
            Ok(join_path_spec(path, candidate_names()[i]))
        }
    } else {
        Err(PathError::PathNotFound)
    }
}

/// Resolve the configuration file to edit.
///
/// `path_is_file` and `path_is_dir` say whether `path` exists as a file or
/// as a directory; `candidate_is_file` says, for each candidate name in
/// order, whether it exists as a file inside the directory. A file path is
/// taken as it is; in a directory the first existing candidate is chosen.
pub fn resolve_nix_config(
    path: &str,
    path_is_file: bool,
    path_is_dir: bool,
    candidate_is_file: &Vec<bool>,
) -> (r: Result<String, PathError>)
    requires
        candidate_is_file@.len() == candidate_names().len(),
    ensures
        match r {
            Ok(p) => resolve_spec(path@, path_is_file, path_is_dir, candidate_is_file@) == Ok::<
                Seq<char>,
                PathError,
            >(p@),
            Err(er) => resolve_spec(path@, path_is_file, path_is_dir, candidate_is_file@) == Err::<
                Seq<char>,
                PathError,
            >(er),
        },
{
    if path_is_file {
        return Ok(path.to_owned());
    }
    if !path_is_dir {
        return Err(PathError::PathNotFound);
    }
    let names = candidate_file_names();
    let mut i: usize = 0;
    while i < names.len()
        invariant
            !path_is_file,
            path_is_dir,
            i <= names@.len(),
            names@.len() == candidate_names().len(),
            candidate_is_file@.len() == candidate_names().len(),
            forall|k: int| 0 <= k < names@.len() ==> names@[k]@ == candidate_names()[k],
            first_true(candidate_is_file@, 0) == first_true(candidate_is_file@, i as int),
        decreases names@.len() - i,
    {
        if candidate_is_file[i] {
            proof {
                assert(first_true(candidate_is_file@, i as int) == i as int);
                assert(names@[i as int]@ == candidate_names()[i as int]);
            }
            let r = join_path(path, names[i].as_str());
            proof {
                assert(resolve_spec(path@, path_is_file, path_is_dir, candidate_is_file@) == Ok::<
                    Seq<char>,
                    PathError,
                >(join_path_spec(path@, candidate_names()[i as int])));
                assert(r@ == join_path_spec(path@, candidate_names()[i as int]));
            }
            return Ok(r);
        }
        i += 1;
    }
    Err(PathError::NoCandidateFound)
}

/// `p` with every leading repetition of `~/` removed.
pub open spec fn strip_tilde(p: Seq<char>) -> Seq<char>
    decreases p.len(),
{
    if p.len() >= 2 && p[0] == '~' && p[1] == '/' {
        strip_tilde(p.skip(2))
    } else {
        p
    }
}

/// What tilde expansion gives: a path starting with `~/` is joined to the
/// home directory, and fails when none is known; any other path is kept.
pub open spec fn expand_tilde_spec(p: Seq<char>, home: Option<Seq<char>>) -> Result<
    Seq<char>,
    PathError,
> {
    if p.len() >= 2 && p[0] == '~' && p[1] == '/' {
        match home {
            None => Err(PathError::HomeDirUnavailable),
            Some(h) => Ok(join_path_spec(h, strip_tilde(p))),
        }
    } else {
        Ok(p)
    }
}

/// Expand a leading `~/` against the home directory, when there is one.
#[verifier::rlimit(50)]
pub fn expand_tilde(path: &str, home: Option<&str>) -> (r: Result<String, PathError>)
    ensures
        match r {
            Ok(p) => expand_tilde_spec(
                path@,
                match home {
                    Some(h) => Some(h@),
                    None => None,
                },
            ) == Ok::<Seq<char>, PathError>(p@),
            Err(er) => expand_tilde_spec(
                path@,
                match home {
                    Some(h) => Some(h@),
                    None => None,
                },
            ) == Err::<Seq<char>, PathError>(er),
        },
{
    let n = path.unicode_len();
    if !(n >= 2 && path.get_char(0) == '~' && path.get_char(1) == '/') {
        return Ok(path.to_owned());
    }
    match home {
        None => Err(PathError::HomeDirUnavailable),
        Some(h) => {
            let mut i: usize = 0;
            proof {
                assert(path@.skip(0) =~= path@);
            }
            while i < n - 1 && path.get_char(i) == '~' && path.get_char(i + 1) == '/'
                invariant
                    i <= n,
                    2 <= n == path@.len(),
                    strip_tilde(path@) == strip_tilde(path@.skip(i as int)),
                decreases n - i,
            {
                proof {
                    assert(path@.skip(i as int).skip(2) =~= path@.skip(i as int + 2));
                }
                i += 2;
            }
            let rest = path.substring_char(i, n);
            proof {
                assert(rest@ =~= path@.skip(i as int));
            }
            Ok(join_path(h, rest))
        },
    }
}

/// What choosing the base directory gives: the repository's working
/// directory when a repository was found, else the path itself when it is a
/// directory, else its parent.
pub open spec fn choose_base_spec(
    path: Seq<char>,
    path_exists: bool,
    repo_found: bool,
    workdir: Option<Seq<char>>,
    path_is_dir: bool,
    parent: Option<Seq<char>>,
) -> Result<Seq<char>, PathError> {
    if !path_exists {
        Err(PathError::PathNotFound)
    } else if repo_found {
        match workdir {
            None => Err(PathError::RepoWithoutWorkdir),
            Some(w) => Ok(w),
        }
    } else if path_is_dir {
        Ok(path)
    } else {
        match parent {
            None => Err(PathError::ParentUnavailable),
            Some(p) => Ok(p),
        }
    }
}

/// Choose the directory a rebuild runs in.
///
/// `repo_found` and `workdir` report the outcome of repository discovery;
/// `parent` is the path's parent directory, when it has one.
pub fn choose_base_directory(
    path: &str,
    path_exists: bool,
    repo_found: bool,
    workdir: Option<&str>,
    path_is_dir: bool,
    parent: Option<&str>,
) -> (r: Result<String, PathError>)
    ensures
        match r {
            Ok(p) => choose_base_spec(
                path@,
                path_exists,
                repo_found,
                match workdir {
                    Some(w) => Some(w@),
                    None => None,
                },
                path_is_dir,
                match parent {
                    Some(q) => Some(q@),
                    None => None,
                },
            ) == Ok::<Seq<char>, PathError>(p@),
            Err(er) => choose_base_spec(
                path@,
                path_exists,
                repo_found,
                match workdir {
                    Some(w) => Some(w@),
                    None => None,
                },
                path_is_dir,
                match parent {
                    Some(q) => Some(q@),
                    None => None,
                },
            ) == Err::<Seq<char>, PathError>(er),
        },
{
    if !path_exists {
        return Err(PathError::PathNotFound);
    }
    if repo_found {
        return match workdir {
            None => Err(PathError::RepoWithoutWorkdir),
            Some(w) => Ok(w.to_owned()),
        };
    }
    if path_is_dir {
        return Ok(path.to_owned());
    }
    match parent {
        None => Err(PathError::ParentUnavailable),
        Some(p) => Ok(p.to_owned()),
    }
}

/// Split a path string at its last `/` into the directory part, separator
/// included, and the name to complete.
pub fn split_dir_prefix(s: &str) -> (r: (String, String))
    ensures
        ({
            let k = rfind_char(s@, '/');
            if k == -1 {
                r.0@ == Seq::<char>::empty() && r.1@ == s@
            } else {
                r.0@ == s@.take(k + 1) && r.1@ == s@.skip(k + 1)
            }
        }),
{
    let n = s.unicode_len();
    match rfind_char_in(s, '/') {
        None => {
            let r = (String::new(), s.to_owned());
            r
        },
        Some(k) => {
            proof {
                crate::text::lemma_rfind_char_before(s@, '/', s@.len() as int);
            }
            let d = s.substring_char(0, k + 1).to_owned();
            let p = s.substring_char(k + 1, n).to_owned();
            proof {
                assert(d@ =~= s@.take(k as int + 1));
                assert(p@ =~= s@.skip(k as int + 1));
            }
            (d, p)
        },
    }
}

} // verus!
