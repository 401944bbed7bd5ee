//! Capability sets a component holds, and the check on log writes.

use vstd::prelude::*;

verus! {

#[derive(Debug, Clone, Copy, PartialEq, Eq, Structural)]
pub enum Capability {
    ReadFilesystem,
    WriteLog,
    SpawnTask,
    NetworkAccess,
    SendMessage,
    ReceiveMessage,
}

/// The capabilities one component holds.
pub struct CapSet {
    allowed: Vec<Capability>,
}

impl CapSet {
    pub closed spec fn spec_allowed(&self) -> Seq<Capability> {
        self.allowed@
    }

    pub fn new(allowed: Vec<Capability>) -> (r: Self)
        ensures
            r.spec_allowed() == allowed@,
    {
        CapSet { allowed }
    }

    pub fn has(&self, cap: &Capability) -> (r: bool)
        ensures
            r == self.spec_allowed().contains(*cap),
    {
        let n = self.allowed.len();
        let mut i: usize = 0;
        while i < n
            invariant
                n == self.spec_allowed().len(),
                i <= n,
                forall|j: int| 0 <= j < i ==> self.spec_allowed()[j] != *cap,
            decreases n - i,
        {
            if self.allowed[i] == *cap {
                return true;
            }
            i = i + 1;
        }
        false
    }
}

/// The decision behind appending to the component log: admitted exactly when
/// the caller holds `WriteLog`. The file itself is appended by the shim.
pub fn log_message(capset: &CapSet, msg: &str) -> (r: Result<(), &'static str>)
    ensures
        r is Ok <==> capset.spec_allowed().contains(Capability::WriteLog),
{
    let _ = msg;
    if !capset.has(&Capability::WriteLog) {
        return Err("Permission denied: WriteLog");
    }
    Ok(())
}

} // verus!
