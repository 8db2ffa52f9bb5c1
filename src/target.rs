//! The architecture selector and the output shape it decides.

use vstd::prelude::*;
use vstd::string::StringExecFns;

verus! {

/// Target architecture of the generated crate.
#[derive(Clone, Copy, Debug, PartialEq, Eq, Structural)]
pub enum Target {
    /// Vector-table driven cores (Cortex-M class).
    CortexM,
    /// Interrupt-vector cores (MSP430 class).
    Msp430,
    /// Trap-vector cores (RISC-V class).
    RISCV,
    /// No architecture-specific runtime support.
    Generic,
}

/// A selector that names no known architecture.
#[derive(Clone, Debug)]
pub struct UnsupportedTargetError {
    pub selector: String,
}

/// The target that a selector string names, if any.
pub open spec fn target_named(s: Seq<char>) -> Option<Target> {
    if s == "cortex-m"@ {
        Option::Some(Target::CortexM)
    } else if s == "msp430"@ {
        Option::Some(Target::Msp430)
    } else if s == "riscv"@ {
        Option::Some(Target::RISCV)
    } else if s == "none"@ {
        Option::Some(Target::Generic)
    } else {
        Option::None
    }
}

fn same_text(s: &str, lit: &str) -> (r: bool)
    ensures
        r == (s@ == lit@),
{
    let a = String::from_str(s);
    let b = String::from_str(lit);
    a == b
}

impl Target {
    /// Reads an architecture selector (`cortex-m`, `msp430`, `riscv` or `none`).
    pub fn parse(s: &str) -> (r: Result<Target, UnsupportedTargetError>)
        ensures
            target_named(s@) matches Option::Some(t) ==> r == Ok::<Target, UnsupportedTargetError>(t),
            target_named(s@) is None <==> r is Err,
            r matches Err(e) ==> e.selector@ == s@,
    {
        if same_text(s, "cortex-m") {
            Ok(Target::CortexM)
        } else if same_text(s, "msp430") {
            Ok(Target::Msp430)
        } else if same_text(s, "riscv") {
            Ok(Target::RISCV)
        } else if same_text(s, "none") {
            Ok(Target::Generic)
        } else {
            Err(UnsupportedTargetError { selector: String::from_str(s) })
        }
    }

    /// Whether this target gets a linker script with the interrupt vector
    /// table and the build glue that installs it.
    pub fn has_runtime_support(&self) -> (r: bool)
        ensures
            r == (*self == Target::CortexM),
    {
        match self {
            Target::CortexM => true,
            _ => false,
        }
    }
}

} // verus!
