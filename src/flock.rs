//! Which lock file guards what: the global lock or a VG's. Taking the
//! lock (opening the file and locking it) is the caller's part.

use vstd::prelude::*;
use vstd::string::StringSliceAdditionalSpecFns;
use crate::parser::text_bytes;
use crate::util::push_all;

verus! {

/// What a lock guards.
#[derive(Debug)]
pub enum LockScope {
    Global,
    VG(Vec<u8>),
}

/// The path of the lock file for a scope.
pub open spec fn lock_path(scope: LockScope) -> Seq<u8> {
    "/run/lock/lvm/".spec_bytes() + match scope {
        LockScope::Global => "P_global".spec_bytes(),
        LockScope::VG(name) => "V_".spec_bytes() + name@,
    }
}

impl LockScope {
    /// The path of the lock file for this scope.
    pub fn lock_file(&self) -> (r: Vec<u8>)
        ensures
            r@ == lock_path(*self),
    {
        let mut v = text_bytes("/run/lock/lvm/");
        match self {
            LockScope::Global => push_all(&mut v, text_bytes("P_global").as_slice()),
            LockScope::VG(name) => {
                push_all(&mut v, text_bytes("V_").as_slice());
                push_all(&mut v, name.as_slice());
            },
        }
        assert(v@ =~= lock_path(*self));
        v
    }
}

} // verus!
