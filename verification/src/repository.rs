//! The repository model: identity, validity, and the argument lists handed
//! to the external version-control tool.
//!
//! A repository's identity is `full_path`, its path relative to the
//! workspace root. Two repositories are the same declared unit exactly when
//! their `full_path`s are equal, and the lockfile orders entries by that
//! path. Values are immutable for the duration of a command: batch
//! operations read the fields and never write them back.

use vstd::prelude::*;
use vstd::string::StrSliceExecFns;
use vstd::string::StringExecFns;

use crate::errors::ErrorKind;
use crate::errors::WorkspaceError;

verus! {

/// Mathematical image of a `Repository`.
pub struct RepoView {
    pub name: Seq<char>,
    pub path: Seq<char>,
    pub origin: Seq<char>,
    pub upstream: Option<Seq<char>>,
    pub branch: Option<Seq<char>>,
}

/// A declared unit of work: one version-controlled directory that should
/// exist under the workspace root.
pub struct Repository {
    /// Short identifier, typically the last path segment.
    pub name: String,
    /// Path relative to the workspace root; the identity key.
    pub full_path: String,
    /// Remote address of the primary remote.
    pub origin_url: String,
    /// Remote address of a secondary, upstream remote, when one is declared.
    pub upstream_url: Option<String>,
    /// Branch to track and pull on the upstream remote, when declared.
    pub branch: Option<String>,
}

impl View for Repository {
    type V = RepoView;

    open spec fn view(&self) -> RepoView {
        RepoView {
            name: self.name@,
            path: self.full_path@,
            origin: self.origin_url@,
            upstream: match self.upstream_url {
                Some(u) => Some(u@),
                None => None,
            },
            branch: match self.branch {
                Some(b) => Some(b@),
                None => None,
            },
        }
    }
}

impl Clone for Repository {
    /// A copy carries exactly the same field contents.
    fn clone(&self) -> (r: Self)
        ensures
            r@ == self@,
    {
        Repository {
            name: self.name.clone(),
            full_path: self.full_path.clone(),
            origin_url: self.origin_url.clone(),
            upstream_url: match &self.upstream_url {
                Some(u) => Some(u.clone()),
                None => None,
            },
            branch: match &self.branch {
                Some(b) => Some(b.clone()),
                None => None,
            },
        }
    }
}

/// A `..` path segment begins at position `i` of `p`.
pub open spec fn is_dotdot_at(p: Seq<char>, i: int) -> bool {
    &&& 0 <= i
    &&& i + 2 <= p.len()
    &&& (i == 0 || p[i - 1] == '/')
    &&& p[i] == '.'
    &&& p[i + 1] == '.'
    &&& (i + 2 == p.len() || p[i + 2] == '/')
}

/// A relative path that stays inside the workspace: non-empty, not
/// absolute, and without any `..` segment.
pub open spec fn safe_rel_path(p: Seq<char>) -> bool {
    &&& p.len() > 0
    &&& p[0] != '/'
    &&& forall|i: int| !is_dotdot_at(p, i)
}

/// The workspace root joined with a relative path by one separator.
pub open spec fn joined_path(workspace: Seq<char>, rel: Seq<char>) -> Seq<char> {
    workspace + seq!['/'] + rel
}

/// Executable check of `safe_rel_path`.
pub fn check_safe_rel_path(p: &str) -> (r: bool)
    ensures
        r == safe_rel_path(p@),
{
    let len = p.unicode_len();
    if len == 0 {
        proof {
            assert(!safe_rel_path(p@));
        }
        return false;
    }
    if p.get_char(0) == '/' {
        return false;
    }
    let mut i: usize = 0;
    while i < len
        invariant
            i <= len,
            len == p@.len(),
            forall|j: int| j < i ==> !is_dotdot_at(p@, j),
        decreases len - i,
    {
        if len - i >= 2 && p.get_char(i) == '.' && p.get_char(i + 1) == '.' {
            let starts = i == 0 || p.get_char(i - 1) == '/';
            let ends = len - i == 2 || p.get_char(i + 2) == '/';
            if starts && ends {
                proof {
                    assert(is_dotdot_at(p@, i as int));
                }
                return false;
            }
        }
        proof {
            assert(!is_dotdot_at(p@, i as int));
        }
        i = i + 1;
    }
    proof {
        assert forall|j: int| !is_dotdot_at(p@, j) by {
            if 0 <= j < len {
                assert(!is_dotdot_at(p@, j));
            }
        }
    }
    true
}

impl Repository {
    /// Construct a repository from its fields.
    pub fn new(
        name: String,
        full_path: String,
        origin_url: String,
        upstream_url: Option<String>,
        branch: Option<String>,
    ) -> (r: Repository)
        ensures
            r.name == name,
            r.full_path == full_path,
            r.origin_url == origin_url,
            r.upstream_url == upstream_url,
            r.branch == branch,
    {
        Repository { name, full_path, origin_url, upstream_url, branch }
    }

    /// The repository's short name, as `list` prints it.
    pub fn name(&self) -> (r: &String)
        ensures
            r@ == self@.name,
    {
        &self.name
    }

    /// Join and validate this repository's path under the workspace root.
    /// Returns the joined path exactly when `full_path` cannot escape the
    /// workspace, and a `PathError` otherwise.
    pub fn resolve_path(&self, workspace: &str) -> (r: Result<String, WorkspaceError>)
        ensures
            match r {
                Ok(p) => safe_rel_path(self@.path) && p@ == joined_path(workspace@, self@.path),
                Err(e) => !safe_rel_path(self@.path) && e.kind == ErrorKind::PathError,
            },
    {
        if !check_safe_rel_path(self.full_path.as_str()) {
            return Err(
                WorkspaceError::new(
                    ErrorKind::PathError,
                    String::from_str("repository path escapes the workspace or is invalid"),
                ),
            );
        }
        let mut p = String::new();
        p.append(workspace);
        p.append("/");
        p.append(self.full_path.as_str());
        proof {
            reveal_strlit("/");
            assert("/"@ =~= seq!['/']);
            assert(p@ =~= joined_path(workspace@, self@.path));
        }
        Ok(p)
    }

    /// Arguments for the external tool's clone operation: materialize this
    /// repository's origin at its relative path.
    pub fn clone_args(&self) -> (r: Vec<String>)
        ensures
            r@.len() == 3,
            r@[0]@ == "clone"@,
            r@[1]@ == self@.origin,
            r@[2]@ == self@.path,
    {
        let mut v: Vec<String> = Vec::new();
        v.push(String::from_str("clone"));
        v.push(self.origin_url.clone());
        v.push(self.full_path.clone());
        v
    }

    /// Arguments that register the upstream remote, when one is declared;
    /// `None` means the operation is a no-op for this repository.
    pub fn set_upstream_args(&self) -> (r: Option<Vec<String>>)
        ensures
            match r {
                Some(v) => {
                    &&& self@.upstream is Some
                    &&& v@.len() == 4
                    &&& v@[0]@ == "remote"@
                    &&& v@[1]@ == "add"@
                    &&& v@[2]@ == "upstream"@
                    &&& v@[3]@ == self@.upstream->0
                },
                None => self@.upstream is None,
            },
    {
        match &self.upstream_url {
            Some(u) => {
                let mut v: Vec<String> = Vec::new();
                v.push(String::from_str("remote"));
                v.push(String::from_str("add"));
                v.push(String::from_str("upstream"));
                v.push(u.clone());
                Some(v)
            },
            None => None,
        }
    }

    /// Arguments that switch the working tree to the primary branch, when
    /// one is declared; `None` means there is nothing to switch to.
    pub fn switch_args(&self) -> (r: Option<Vec<String>>)
        ensures
            match r {
                Some(v) => {
                    &&& self@.branch is Some
                    &&& v@.len() == 2
                    &&& v@[0]@ == "switch"@
                    &&& v@[1]@ == self@.branch->0
                },
                None => self@.branch is None,
            },
    {
        match &self.branch {
            Some(b) => {
                let mut v: Vec<String> = Vec::new();
                v.push(String::from_str("switch"));
                v.push(b.clone());
                Some(v)
            },
            None => None,
        }
    }

    /// Arguments for the pull step: pull from the declared upstream branch
    /// when both an upstream remote and a branch are declared, and a plain
    /// pull otherwise.
    pub fn pull_args(&self) -> (r: Vec<String>)
        ensures
            (self@.upstream is Some && self@.branch is Some) ==> {
                &&& r@.len() == 3
                &&& r@[0]@ == "pull"@
                &&& r@[1]@ == "upstream"@
                &&& r@[2]@ == self@.branch->0
            },
            !(self@.upstream is Some && self@.branch is Some) ==> {
                &&& r@.len() == 1
                &&& r@[0]@ == "pull"@
            },
    {
        match (&self.upstream_url, &self.branch) {
            (Some(_), Some(b)) => {
                let mut v: Vec<String> = Vec::new();
                v.push(String::from_str("pull"));
                v.push(String::from_str("upstream"));
                v.push(b.clone());
                v
            },
            _ => {
                let mut v: Vec<String> = Vec::new();
                v.push(String::from_str("pull"));
                v
            },
        }
    }
}

} // verus!
