//! ARM semihosting: lets the kernel terminate QEMU on its own.
use vstd::prelude::*;

verus! {

/// The semihosting operation number of SYS_EXIT.
pub const SYS_EXIT: u64 = 0x18;
/// ADP_Stopped_ApplicationExit.
pub const APP_EXIT: u64 = 0x2_0026;

/// The parameter block of SYS_EXIT: the reason, then the exit code.
pub fn exit_block(code: u32) -> (block: [u64; 2])
    ensures
        block@ == seq![APP_EXIT, code as u64],
{
    let block = [APP_EXIT, code as u64];
    assert(block@ =~= seq![APP_EXIT, code as u64]);
    block
}

} // verus!
