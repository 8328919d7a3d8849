//! An emulator for the EXA virtual machine of EXAPUNKS and its Redshift handheld:
//! a preprocessor and parser for EXA scripts, and a VM that runs them cycle by cycle.

pub mod image;
pub mod parse;
pub mod random;
pub mod text;
pub mod vm;
