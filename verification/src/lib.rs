//! Verified core of a small aarch64 microkernel: the physical frame
//! allocator, the four-level identity page tables and the MMU register
//! values, the exception recovery decision, and the values the UART and
//! semihosting paths send to the hardware.

pub mod cpu;
pub mod exceptions;
pub mod mm;
pub mod paging;
pub mod semihost;
pub mod uart;
