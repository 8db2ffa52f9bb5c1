//! The normalised hardware description that the renderer consumes.

use vstd::prelude::*;

verus! {

/// Access permission of a register or a field.
#[derive(Clone, Copy, Debug, PartialEq, Eq, Structural)]
pub enum Access {
    ReadOnly,
    WriteOnly,
    ReadWrite,
}

/// The direction in which an enumerated value applies.
#[derive(Clone, Copy, Debug, PartialEq, Eq, Structural)]
pub enum Usage {
    Read,
    Write,
    ReadWrite,
}

/// Two direction scopes have a direction in common.
pub open spec fn scopes_meet(a: Usage, b: Usage) -> bool {
    a == Usage::ReadWrite || b == Usage::ReadWrite || a == b
}

impl Usage {
    /// Whether the two scopes have a direction in common.
    pub fn meets(&self, other: &Usage) -> (r: bool)
        ensures
            r == scopes_meet(*self, *other),
    {
        *self == Usage::ReadWrite || *other == Usage::ReadWrite || *self == *other
    }
}

/// One named value of a field's enumerated-value set.
#[derive(Clone, Debug)]
pub struct EnumValue {
    pub name: String,
    pub value: u64,
    pub usage: Usage,
}

/// A named range of bits inside a register.
#[derive(Clone, Debug)]
pub struct Field {
    pub name: String,
    pub bit_offset: u32,
    pub bit_width: u32,
    /// Falls back to the register's access when absent.
    pub access: Option<Access>,
    pub values: Vec<EnumValue>,
}

/// A memory-mapped register at an offset from its block's start.
#[derive(Clone, Debug)]
pub struct Register {
    pub name: String,
    pub offset: u64,
    /// Width in bits.
    pub width: u32,
    pub access: Access,
    pub reset_value: u64,
    pub fields: Vec<Field>,
}

/// A contiguous group of registers at an offset from its peripheral's base.
#[derive(Clone, Debug)]
pub struct RegisterBlock {
    pub name: String,
    pub offset: u64,
    /// Size in bytes.
    pub size: u64,
    pub registers: Vec<Register>,
}

/// A hardware block mapped at a base address.
#[derive(Clone, Debug)]
pub struct Peripheral {
    pub name: String,
    pub base_address: u64,
    /// Name of the peripheral whose register blocks this one inherits.
    pub derived_from: Option<String>,
    pub blocks: Vec<RegisterBlock>,
}

/// An interrupt line with its vector index.
#[derive(Clone, Debug)]
pub struct Interrupt {
    pub name: String,
    pub index: u32,
    pub description: Option<String>,
}

/// A whole microcontroller.
#[derive(Clone, Debug)]
pub struct Device {
    pub name: String,
    pub description: String,
    pub peripherals: Vec<Peripheral>,
    pub interrupts: Vec<Interrupt>,
}

/// The access that governs a field: its own, or else its register's.
pub open spec fn effective_access(f: Field, r: Register) -> Access {
    match f.access {
        Option::Some(a) => a,
        Option::None => r.access,
    }
}

/// Whether an access permits reads.
pub open spec fn readable(a: Access) -> bool {
    a != Access::WriteOnly
}

/// Whether an access permits writes.
pub open spec fn writable(a: Access) -> bool {
    a != Access::ReadOnly
}

impl Access {
    /// Whether this access permits reads.
    pub fn can_read(&self) -> (r: bool)
        ensures
            r == readable(*self),
    {
        match self {
            Access::WriteOnly => false,
            _ => true,
        }
    }

    /// Whether this access permits writes.
    pub fn can_write(&self) -> (r: bool)
        ensures
            r == writable(*self),
    {
        match self {
            Access::ReadOnly => false,
            _ => true,
        }
    }
}

impl Field {
    /// The access that governs this field inside `reg`.
    pub fn access_in(&self, reg: &Register) -> (r: Access)
        ensures
            r == effective_access(*self, *reg),
    {
        match self.access {
            Option::Some(a) => a,
            Option::None => reg.access,
        }
    }
}

} // verus!
