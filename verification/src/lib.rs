//! Memory-management core of a bare-metal RISC-V kernel: a physical
//! page-frame allocator, a three-level Sv39-style page-table engine, and the
//! one-shot address-space builder that identity-maps the kernel's memory
//! regions.

pub mod frame;
pub mod page;
pub mod sbi;
