//! The CPU architectures that jdkenv supports, and their names in the foojay
//! Disco API and in jdkenv's own release assets.

use vstd::prelude::*;

use crate::text::{chars_eq, chars_of};

verus! {

/// CPU architecture supported by jdkenv on Windows.
#[derive(Debug, Clone, Copy, PartialEq, Eq, Structural)]
pub enum Arch {
    X64,
    Aarch64,
}

/// An architecture name that jdkenv does not support.
pub struct UnsupportedArch {
    pub name: String,
}

impl Arch {
    /// The architecture that a Rust target architecture name
    /// (`std::env::consts::ARCH`) denotes: `x86_64` or `aarch64`; any other
    /// name is unsupported.
    pub fn from_name(name: &str) -> (r: Result<Arch, UnsupportedArch>)
        ensures
            name@ == "x86_64"@ ==> r == Ok::<Arch, UnsupportedArch>(Arch::X64),
            name@ == "aarch64"@ ==> r == Ok::<Arch, UnsupportedArch>(Arch::Aarch64),
            name@ != "x86_64"@ && name@ != "aarch64"@ ==> (r matches Err(e) && e.name@ == name@),
    {
        proof {
            reveal_strlit("x86_64");
            reveal_strlit("aarch64");
            assert("x86_64"@.len() == 6);
            assert("aarch64"@.len() == 7);
            assert("x86_64"@ != "aarch64"@);
        }
        let n = chars_of(name);
        let x = chars_of("x86_64");
        let a = chars_of("aarch64");
        if chars_eq(&n, &x) {
            Ok(Arch::X64)
        } else if chars_eq(&n, &a) {
            Ok(Arch::Aarch64)
        } else {
            Err(UnsupportedArch { name: String::from_str(name) })
        }
    }

    /// The name of this architecture in the foojay Disco API.
    pub open spec fn foojay_name(self) -> Seq<char> {
        match self {
            Arch::X64 => "x64"@,
            Arch::Aarch64 => "aarch64"@,
        }
    }

    /// The name of this architecture in jdkenv's release assets.
    pub open spec fn asset_name(self) -> Seq<char> {
        match self {
            Arch::X64 => "x64"@,
            Arch::Aarch64 => "arm64"@,
        }
    }

    /// Value of the `architecture` parameter expected by foojay.
    pub fn foojay(self) -> (r: &'static str)
        ensures
            r@ == self.foojay_name(),
    {
        match self {
            Arch::X64 => "x64",
            Arch::Aarch64 => "aarch64",
        }
    }

    /// The architecture part of jdkenv's release asset name
    /// (`jdkenv-<arch>.exe`).
    pub fn release_asset(self) -> (r: &'static str)
        ensures
            r@ == self.asset_name(),
    {
        match self {
            Arch::X64 => "x64",
            Arch::Aarch64 => "arm64",
        }
    }
}

} // verus!
