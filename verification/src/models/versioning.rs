//! Versions of the index: one file for each commit.

use crate::models::text::{decimal, push_decimal};
use vstd::prelude::*;
use vstd::string::StringExecFns;

verus! {

/// A version of the index on a branch.
#[derive(Debug, Clone, Copy, PartialEq, Eq, Structural)]
pub struct VersionHash {
    pub branch: u64,
    pub version: u32,
}

/// The name of the index file of `version`.
pub open spec fn index_file_text(version: u32) -> Seq<char> {
    decimal(version as nat) + ".index"@
}

/// The name of the index file of `version`: the number and `.index`.
pub fn index_file_name(version: u32) -> (name: String)
    ensures
        name@ == index_file_text(version),
{
    let mut name = String::new();
    push_decimal(&mut name, version as u64);
    name.append(".index");
    assert(name@ =~= index_file_text(version));
    name
}

impl VersionHash {
    pub fn new(branch: u64, version: u32) -> (v: Self)
        ensures
            v == (VersionHash { branch, version }),
    {
        VersionHash { branch, version }
    }

    /// The version that the next commit writes, on the same branch. There
    /// is none behind the last number.
    pub fn next(&self) -> (v: Option<VersionHash>)
        ensures
            v == if self.version < u32::MAX {
                Some(VersionHash { branch: self.branch, version: (self.version + 1) as u32 })
            } else {
                None
            },
    {
        if self.version < u32::MAX {
            Some(VersionHash { branch: self.branch, version: self.version + 1 })
        } else {
            None
        }
    }
}

} // verus!
