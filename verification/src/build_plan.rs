//! The build plan handed over by the external build tool: one invocation
//! per compiled artifact of the current project.

use vstd::prelude::*;
use crate::version_order::str_eq;

verus! {

/// The artifact kind that marks a compiled library.
pub open spec fn lib_kind() -> Seq<char> {
    "lib"@
}

/// One compiled artifact of the build plan: package name and version, the
/// artifact kinds produced, and the working directory its build step ran
/// from.
pub struct Invocation {
    pub package_name: String,
    pub package_version: String,
    pub target_kind: Vec<String>,
    pub cwd: String,
}

/// The ordered invocations the build tool reports for one compilation.
pub struct BuildPlan {
    pub invocations: Vec<Invocation>,
}

impl Invocation {
    /// Whether this invocation produced a library artifact. Only libraries
    /// are scanned for exported migrations.
    pub open spec fn is_library_spec(&self) -> bool {
        self.target_kind.deep_view().contains(lib_kind())
    }

    /// Decides whether this invocation's artifact kinds include `"lib"`.
    pub fn is_library(&self) -> (r: bool)
        ensures
            r == self.is_library_spec(),
    {
        let mut i: usize = 0;
        while i < self.target_kind.len()
            invariant
                i <= self.target_kind@.len(),
                forall|j: int| 0 <= j < i ==> self.target_kind.deep_view()[j] != lib_kind(),
            decreases self.target_kind@.len() - i,
        {
            if str_eq(self.target_kind[i].as_str(), "lib") {
                assert(self.target_kind.deep_view()[i as int] == lib_kind());
                return true;
            }
            i += 1;
        }
        false
    }
}

} // verus!
