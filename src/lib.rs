//! Rendering engine that turns a hardware description of a microcontroller
//! (peripherals, register blocks, registers, fields, interrupts) into
//! register-accessor code and the linker script of its interrupt vector
//! table. Validation and derive-from resolution come first; nothing is
//! emitted for a description that breaks an invariant.

pub mod target;
pub mod model;
pub mod interrupts;
pub mod text;
pub mod layout;
pub mod normalize;
pub mod emit;
pub mod render;
