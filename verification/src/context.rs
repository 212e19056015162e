use vstd::prelude::*;

verus! {

use crate::errors::FsError;
use crate::path::{CasePolicy, FsPath, join, join_of};
use vstd::utf8::encode_utf8;

/// The process-wide immutable context the engine receives once at
/// startup: the user's home directory as resolved by the host, the
/// configured case policy, and whether the platform offers a trash
/// facility.  No component looks these up from shared mutable state;
/// the context value is passed explicitly where it is needed.
pub struct EngineContext {
    pub home: FsPath,
    pub policy: CasePolicy,
    pub trash_supported: bool,
}

impl EngineContext {
    pub fn new(home: FsPath, policy: CasePolicy, trash_supported: bool) -> (r: EngineContext)
        requires
            home.wf(),
        ensures
            r.home@ == home@,
            r.home.wf(),
            r.policy == policy,
            r.trash_supported == trash_supported,
    {
        EngineContext { home, policy, trash_supported }
    }

    /// A default path built below the user's home directory, purely
    /// lexically, as `join` does.
    pub fn home_path(&self, fragments: &Vec<String>) -> (r: Result<FsPath, FsError>)
        requires
            self.home.wf(),
        ensures
            match r {
                Ok(p) => {
                    &&& p@ == join_of(
                        self.home@,
                        Seq::new(fragments@.len(), |i: int| encode_utf8(fragments@[i]@)),
                    )
                    &&& p@.len() > 0
                    &&& p.wf()
                },
                Err(e) => e == FsError::InvalidPath,
            },
    {
        join(&self.home, fragments)
    }
}

} // verus!
