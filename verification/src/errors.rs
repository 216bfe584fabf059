//! Error values for the workspace core.
//!
//! One structured error type covers the whole taxonomy. A batch operation
//! catches these per repository and defers them; everything else aborts the
//! enclosing command. The causal chain is an explicit list of messages,
//! outermost context first, innermost cause last; rendering is left to the
//! caller.

use vstd::prelude::*;

verus! {

/// What went wrong, by category.
#[derive(Clone, Copy, PartialEq, Eq, Structural, Debug)]
pub enum ErrorKind {
    /// A repository path escaped the workspace or was otherwise invalid.
    PathError,
    /// The lockfile text was malformed.
    FormatError,
    /// The external version-control tool failed to materialize a repository.
    CloneError,
    /// An external command exited with a failure.
    CommandError,
    /// The filesystem walk could not read a directory.
    TraversalError,
    /// A provider could not deliver its repository list.
    ProviderFetchError,
    /// No usable provider configuration was found, or an entry was duplicated.
    ConfigError,
}

/// A categorized error with its causal chain, outermost message first.
#[derive(Debug)]
pub struct WorkspaceError {
    pub kind: ErrorKind,
    pub causes: Vec<String>,
}

impl WorkspaceError {
    /// Make an error of the given category with a single message.
    pub fn new(kind: ErrorKind, message: String) -> (r: WorkspaceError)
        ensures
            r.kind == kind,
            r.causes@.len() == 1,
            r.causes@[0]@ == message@,
    {
        let mut causes: Vec<String> = Vec::new();
        causes.push(message);
        WorkspaceError { kind, causes }
    }

    /// Wrap the error in one more layer of context; the new message becomes
    /// the outermost cause and everything already recorded keeps its order.
    pub fn with_context(self, message: String) -> (r: WorkspaceError)
        ensures
            r.kind == self.kind,
            r.causes@ == seq![message].add(self.causes@),
    {
        let mut causes: Vec<String> = Vec::new();
        let ghost whole = seq![message].add(self.causes@);
        causes.push(message);
        let mut rest = self.causes;
        while rest.len() > 0
            invariant
                causes@.add(rest@) =~= whole,
            decreases rest@.len(),
        {
            let c = rest.remove(0);
            causes.push(c);
            proof {
                assert(causes@.add(rest@) =~= whole);
            }
        }
        proof {
            assert(causes@ =~= whole);
        }
        WorkspaceError { kind: self.kind, causes }
    }
}

} // verus!
