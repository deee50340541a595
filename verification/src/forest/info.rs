//! Payloads that know whether their path is a directory.

use vstd::prelude::*;

verus! {

/// A payload that can be told whether its path is a directory.
pub trait NodeInfo: Default {
    /// Whether the payload says that its path is a directory.
    spec fn spec_is_dir(&self) -> bool;

    /// The payload, told that its path is a directory, or is none.
    fn with_is_dir(self, is_dir: bool) -> (info: Self)
        ensures
            info.spec_is_dir() == is_dir,
    ;
}

/// The payload that holds nothing else.
#[derive(Debug)]
pub struct BasicNodeInfo {
    is_dir: bool,
}

impl Default for BasicNodeInfo {
    fn default() -> (info: Self)
        ensures
            !info.spec_is_dir(),
    {
        BasicNodeInfo { is_dir: false }
    }
}

impl NodeInfo for BasicNodeInfo {
    closed spec fn spec_is_dir(&self) -> bool {
        self.is_dir
    }

    fn with_is_dir(self, is_dir: bool) -> (info: Self) {
        let mut info = self;
        info.is_dir = is_dir;
        info
    }
}

impl BasicNodeInfo {
    /// The default payload is fixed: it says that its path is no directory.
    pub proof fn lemma_fixed_default()
        ensures
            crate::forest::has_fixed_default::<BasicNodeInfo>(),
    {
        assert forall|d: BasicNodeInfo| call_ensures(BasicNodeInfo::default, (), d) implies d
            == crate::forest::default_payload::<BasicNodeInfo>() by {
            let chosen = crate::forest::default_payload::<BasicNodeInfo>();
            assert(call_ensures(BasicNodeInfo::default, (), chosen));
            assert(!d.is_dir && !chosen.is_dir);
        }
    }

    /// Whether the payload says that its path is a directory.
    pub fn is_dir(&self) -> (is_dir: bool)
        ensures
            is_dir == self.spec_is_dir(),
    {
        self.is_dir
    }
}

} // verus!
