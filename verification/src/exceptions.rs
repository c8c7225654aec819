//! Exception reporting and recovery decisions.
//!
//! A fault should not mean "the whole machine goes down", it should mean
//! "here is a report you can read". Recovery is single-shot: an armed,
//! synchronous data abort taken at the current EL is reported in one line
//! and its faulting instruction is skipped; anything else halts with the
//! full report.
use vstd::prelude::*;

verus! {

/// x0-x30 as saved by the vector entry, plus one slot of padding so the
/// frame stays 16-byte aligned.
pub struct ExceptionFrame {
    pub x: [u64; 31],
    pub _pad: u64,
}

/// The handler's verdict, returned in x0 to the vector trampoline.
pub const HALT: u64 = 0;
pub const RESUME: u64 = 1;

/// Exception classes of ESR_EL1 for data and instruction aborts, taken from
/// a lower EL and from the same EL. Only a data abort from the same EL is
/// ever recovered.
pub const EC_DATA_ABORT_LOWER: u64 = 0x24;
pub const EC_DATA_ABORT_SAME: u64 = 0x25;
pub const EC_INSTR_ABORT_LOWER: u64 = 0x20;
pub const EC_INSTR_ABORT_SAME: u64 = 0x21;

/// The EC field of ESR_EL1, bits[31:26].
pub open spec fn esr_ec(esr: u64) -> u64 {
    (esr >> 26u64) & 0x3F
}

/// The DFSC/IFSC field of ESR_EL1, bits[5:0].
pub open spec fn esr_fsc(esr: u64) -> u64 {
    esr & 0x3F
}

/// An EC that names a data or instruction abort, for which the report
/// shows the fault status and FAR_EL1.
pub open spec fn is_abort(ec: u64) -> bool {
    ec == EC_DATA_ABORT_LOWER || ec == EC_DATA_ABORT_SAME || ec == EC_INSTR_ABORT_LOWER || ec
        == EC_INSTR_ABORT_SAME
}

/// Whether vector entry `index` is a synchronous one: the table has four
/// rows of four entries (current EL with SP_EL0, current EL with SP_ELx,
/// lower EL AArch64, lower EL AArch32), each row in the order Synchronous,
/// IRQ, FIQ, SError.
pub open spec fn spec_is_synchronous_entry(index: u64) -> bool {
    index % 4 == 0
}

/// Whether a fault taken through entry `index` with syndrome `esr` is
/// recovered when recovery is `armed`: only an armed, synchronous data
/// abort taken at the current EL. ESR_EL1 is only updated by synchronous
/// exceptions, so an IRQ must not be judged by a stale EC.
pub open spec fn recovers(armed: bool, index: u64, esr: u64) -> bool {
    armed && spec_is_synchronous_entry(index) && esr_ec(esr) == EC_DATA_ABORT_SAME
}

/// Recovery looks at nothing but the arming, the vector entry and the
/// exception class, ESR_EL1 bits[31:26]: two syndromes of the same class are
/// judged alike whatever their ISS bits say (a read or a write, any fault
/// status), and an armed exception through a synchronous entry (every
/// fourth) whose class is 0x25, a data abort at the current EL, is always
/// recovered. Nothing unarmed, nothing through an IRQ, FIQ or SError entry,
/// and no other class is.
pub proof fn lemma_recovery_reads_only_the_class(armed: bool, index: u64, esr1: u64, esr2: u64)
    ensures
        (esr1 >> 26u64) & 0x3F == (esr2 >> 26u64) & 0x3F ==> recovers(armed, index, esr1) == recovers(
            armed,
            index,
            esr2,
        ),
        armed && index % 4 == 0 && (esr1 >> 26u64) & 0x3F == 0x25 ==> recovers(armed, index, esr1),
        !armed ==> !recovers(armed, index, esr1),
        index % 4 != 0 ==> !recovers(armed, index, esr1),
        (esr1 >> 26u64) & 0x3F != 0x25 ==> !recovers(armed, index, esr1),
{
}

/// The two things that change the recovery flag.
pub enum RecoveryEvent {
    /// A call of `arm_recovery`.
    Arm,
    /// An exception taken (`take_arming`, or `handle`), whatever its kind.
    Exception,
}

/// The flag after one event: arming sets it, any exception clears it.
pub open spec fn step(armed: bool, event: RecoveryEvent) -> bool {
    match event {
        RecoveryEvent::Arm => true,
        RecoveryEvent::Exception => false,
    }
}

/// The flag after a run of events, starting unarmed.
pub open spec fn armed_after(events: Seq<RecoveryEvent>) -> bool
    decreases events.len(),
{
    if events.len() == 0 {
        false
    } else {
        step(armed_after(events.drop_last()), events.last())
    }
}

/// Recovery is armed exactly when `arm_recovery` was called after the last
/// handled exception (or at all, if no exception was handled yet); it is
/// unarmed before anything happened.
pub proof fn lemma_armed_iff_armed_since_last_exception(events: Seq<RecoveryEvent>)
    ensures
        armed_after(events) <==> exists|i: int|
            0 <= i < events.len() && #[trigger] events[i] is Arm && forall|j: int|
                i < j < events.len() ==> !(#[trigger] events[j] is Exception),
    decreases events.len(),
{
    if events.len() > 0 {
        let prefix = events.drop_last();
        let n = events.len() - 1;
        lemma_armed_iff_armed_since_last_exception(prefix);
        if events.last() is Arm {
            assert(events[n] is Arm);
        } else {
            if armed_after(events) {
                assert(false);
            }
            assert forall|i: int| 0 <= i < events.len() && #[trigger] events[i] is Arm implies
                !(forall|j: int| i < j < events.len() ==> !(#[trigger] events[j] is Exception)) by {
                assert(events[n] is Exception);
            }
        }
    }
}

/// Extract the EC field of ESR_EL1.
pub fn exception_class(esr: u64) -> (ec: u64)
    ensures
        ec == esr_ec(esr),
        ec < 64,
{
    assert((esr >> 26u64) & 0x3F < 64) by (bit_vector);
    (esr >> 26u64) & 0x3F
}

/// Extract the fault status code, bits[5:0] of ESR_EL1.
pub fn fault_status(esr: u64) -> (fsc: u64)
    ensures
        fsc == esr_fsc(esr),
        fsc < 64,
{
    assert(esr & 0x3F < 64) by (bit_vector);
    esr & 0x3F
}

/// Whether vector entry `index` is the synchronous entry of its row.
pub fn is_synchronous_entry(index: u64) -> (r: bool)
    ensures
        r == spec_is_synchronous_entry(index),
{
    index % 4 == 0
}

/// The name of the exception class `ec`.
pub open spec fn ec_text(ec: u64) -> Seq<char> {
    if ec == 0x00 {
        "unknown reason"@
    } else if ec == 0x0E {
        "illegal execution state"@
    } else if ec == 0x15 {
        "SVC system call"@
    } else if ec == 0x18 {
        "trapped MSR/MRS"@
    } else if ec == 0x20 {
        "instruction abort (from a lower EL)"@
    } else if ec == 0x21 {
        "instruction abort (same EL)"@
    } else if ec == 0x22 {
        "PC misaligned"@
    } else if ec == 0x24 {
        "data abort (from a lower EL)"@
    } else if ec == 0x25 {
        "data abort (same EL)"@
    } else if ec == 0x26 {
        "SP misaligned"@
    } else if ec == 0x30 || ec == 0x31 {
        "hardware breakpoint"@
    } else if ec == 0x3C {
        "BRK debug instruction"@
    } else {
        "(EC not catalogued yet)"@
    }
}

/// Whether `ec` is a class the report names (not "not catalogued").
pub open spec fn ec_catalogued(ec: u64) -> bool {
    ec == 0x00 || ec == 0x0E || ec == 0x15 || ec == 0x18 || ec == 0x20 || ec == 0x21 || ec == 0x22 || ec
        == 0x24 || ec == 0x25 || ec == 0x26 || ec == 0x30 || ec == 0x31 || ec == 0x3C
}

/// The names of the abort classes say what aborted and where it was taken
/// from: in 0x20, 0x21, 0x24 and 0x25 bit 2 of the class tells a data abort
/// from an instruction abort, and bit 0 tells an abort at the same EL from
/// one taken from a lower EL, and the name says the same. Every catalogued
/// class has a name of its own, except the two hardware breakpoint classes
/// 0x30 and 0x31, which share one; no catalogued class is named like an
/// uncatalogued one.
pub proof fn lemma_exception_class_names(ec: u64, other: u64)
    ensures
        ec == 0x20 || ec == 0x21 || ec == 0x24 || ec == 0x25 ==> {
            let name = ec_text(ec);
            let what = if ec & 4 == 4 { "data abort"@ } else { "instruction abort"@ };
            let from = if ec & 1 == 1 { " (same EL)"@ } else { " (from a lower EL)"@ };
            name == what + from
        },
        ec_catalogued(ec) && ec != other && !((ec == 0x30 || ec == 0x31) && (other == 0x30 || other == 0x31)) ==> ec_text(ec)
            != ec_text(other),
{
    reveal_strlit("data abort");
    reveal_strlit("instruction abort");
    reveal_strlit(" (same EL)");
    reveal_strlit(" (from a lower EL)");
    reveal_strlit("unknown reason");
    reveal_strlit("illegal execution state");
    reveal_strlit("SVC system call");
    reveal_strlit("trapped MSR/MRS");
    reveal_strlit("instruction abort (from a lower EL)");
    reveal_strlit("instruction abort (same EL)");
    reveal_strlit("PC misaligned");
    reveal_strlit("data abort (from a lower EL)");
    reveal_strlit("data abort (same EL)");
    reveal_strlit("SP misaligned");
    reveal_strlit("hardware breakpoint");
    reveal_strlit("BRK debug instruction");
    reveal_strlit("(EC not catalogued yet)");
    if ec == 0x20 || ec == 0x21 || ec == 0x24 || ec == 0x25 {
        assert(ec & 4 == 4 <==> (ec == 0x24 || ec == 0x25)) by (bit_vector)
            requires ec == 0x20 || ec == 0x21 || ec == 0x24 || ec == 0x25;
        assert(ec & 1 == 1 <==> (ec == 0x21 || ec == 0x25)) by (bit_vector)
            requires ec == 0x20 || ec == 0x21 || ec == 0x24 || ec == 0x25;
        let what = if ec & 4 == 4 { "data abort"@ } else { "instruction abort"@ };
        let from = if ec & 1 == 1 { " (same EL)"@ } else { " (from a lower EL)"@ };
        assert(ec_text(ec) =~= what + from);
    }
    if ec_catalogued(ec) && ec != other && !((ec == 0x30 || ec == 0x31) && (other == 0x30 || other == 0x31)) {
        if ec_text(ec) == ec_text(other) {
            assert(ec_text(ec)[0] == ec_text(other)[0]);
            assert(ec_text(ec)[1] == ec_text(other)[1]);
            assert(ec_text(ec).len() == ec_text(other).len());
            if ec_text(ec).len() > 20 {
                assert(ec_text(ec)[20] == ec_text(other)[20]);
            }
        }
    }
}

/// Describe the EC field of ESR_EL1 (bits 31:26), the broad class of the
/// exception.
pub fn describe_ec(ec: u64) -> (r: &'static str)
    ensures
        r@ == ec_text(ec),
{
    if ec == 0x00 {
        "unknown reason"
    } else if ec == 0x0E {
        "illegal execution state"
    } else if ec == 0x15 {
        "SVC system call"
    } else if ec == 0x18 {
        "trapped MSR/MRS"
    } else if ec == 0x20 {
        "instruction abort (from a lower EL)"
    } else if ec == 0x21 {
        "instruction abort (same EL)"
    } else if ec == 0x22 {
        "PC misaligned"
    } else if ec == 0x24 {
        "data abort (from a lower EL)"
    } else if ec == 0x25 {
        "data abort (same EL)"
    } else if ec == 0x26 {
        "SP misaligned"
    } else if ec == 0x30 || ec == 0x31 {
        "hardware breakpoint"
    } else if ec == 0x3C {
        "BRK debug instruction"
    } else {
        "(EC not catalogued yet)"
    }
}

/// What a fault status code says about why an abort failed.
pub open spec fn fsc_text(fsc: u64) -> Seq<char> {
    if fsc <= 0x03 {
        "address size fault"@
    } else if fsc == 0x04 {
        "translation fault level 0 (no page table at all)"@
    } else if fsc == 0x05 {
        "translation fault level 1"@
    } else if fsc == 0x06 {
        "translation fault level 2"@
    } else if fsc == 0x07 {
        "translation fault level 3"@
    } else if 0x08 <= fsc <= 0x0B {
        "access flag fault"@
    } else if 0x0C <= fsc <= 0x0F {
        "permission fault"@
    } else if fsc == 0x10 {
        "external bus error"@
    } else if fsc == 0x21 {
        "unaligned access"@
    } else {
        "(FSC not catalogued yet)"@
    }
}

/// A translation fault is named with the level it happened at: the codes
/// 0x04 to 0x07 are faults at levels 0 to 3, and their names begin with
/// "translation fault level " and that digit, so no two of them share a
/// name and none is named like any other code.
pub proof fn lemma_translation_faults_name_their_level(fsc: u64, other: u64)
    ensures
        0x04 <= fsc <= 0x07 ==> {
            &&& fsc_text(fsc).len() >= 25
            &&& fsc_text(fsc).take(24) == "translation fault level "@
            &&& fsc_text(fsc)[24] == (('0' as u64) + fsc - 4) as char
        },
        0x04 <= fsc <= 0x07 && fsc != other ==> fsc_text(fsc) != fsc_text(other),
{
    reveal_strlit("translation fault level ");
    reveal_strlit("address size fault");
    reveal_strlit("translation fault level 0 (no page table at all)");
    reveal_strlit("translation fault level 1");
    reveal_strlit("translation fault level 2");
    reveal_strlit("translation fault level 3");
    reveal_strlit("access flag fault");
    reveal_strlit("permission fault");
    reveal_strlit("external bus error");
    reveal_strlit("unaligned access");
    reveal_strlit("(FSC not catalogued yet)");
    if 0x04 <= fsc <= 0x07 {
        assert(fsc_text(fsc).take(24) =~= "translation fault level "@);
        if fsc != other && fsc_text(fsc) == fsc_text(other) {
            assert(fsc_text(fsc)[24] == fsc_text(other)[24]);
            assert(fsc_text(fsc)[0] == fsc_text(other)[0]);
            assert(fsc_text(fsc)[1] == fsc_text(other)[1]);
        }
    }
}

/// The group of fault status codes that share a cause: address size faults
/// (0x00 to 0x03, one per level), the four translation-fault levels each on
/// their own, access flag faults (0x08 to 0x0B), permission faults (0x0C to
/// 0x0F), and the external bus error and unaligned access, 0x10 and 0x21.
pub open spec fn fsc_group(fsc: u64) -> int {
    if fsc <= 0x03 {
        0
    } else if 0x04 <= fsc <= 0x07 {
        fsc as int
    } else if 0x08 <= fsc <= 0x0B {
        8
    } else if 0x0C <= fsc <= 0x0F {
        12
    } else if fsc == 0x10 || fsc == 0x21 {
        fsc as int
    } else {
        -1
    }
}

/// Codes with the same cause get the same name, and codes with different
/// causes get different names; an uncatalogued code is never named like a
/// catalogued one. The four address-size codes differ only in the level, as
/// do the access-flag and the permission codes, which the name leaves out.
pub proof fn lemma_fault_names_follow_the_cause(a: u64, b: u64)
    ensures
        fsc_group(a) == fsc_group(b) ==> fsc_text(a) == fsc_text(b),
        fsc_group(a) != fsc_group(b) ==> fsc_text(a) != fsc_text(b),
{
    reveal_strlit("address size fault");
    reveal_strlit("translation fault level 0 (no page table at all)");
    reveal_strlit("translation fault level 1");
    reveal_strlit("translation fault level 2");
    reveal_strlit("translation fault level 3");
    reveal_strlit("access flag fault");
    reveal_strlit("permission fault");
    reveal_strlit("external bus error");
    reveal_strlit("unaligned access");
    reveal_strlit("(FSC not catalogued yet)");
    if fsc_group(a) != fsc_group(b) && fsc_text(a) == fsc_text(b) {
        assert(fsc_text(a).len() == fsc_text(b).len());
        assert(fsc_text(a)[0] == fsc_text(b)[0]);
        if fsc_text(a).len() > 24 {
            assert(fsc_text(a)[24] == fsc_text(b)[24]);
        }
    }
}

/// On a data or instruction abort, the low 6 bits of ESR (DFSC/IFSC) say
/// why it failed.
pub fn describe_fsc(fsc: u64) -> (r: &'static str)
    ensures
        r@ == fsc_text(fsc),
{
    if fsc <= 0x03 {
        "address size fault"
    } else if fsc == 0x04 {
        "translation fault level 0 (no page table at all)"
    } else if fsc == 0x05 {
        "translation fault level 1"
    } else if fsc == 0x06 {
        "translation fault level 2"
    } else if fsc == 0x07 {
        "translation fault level 3"
    } else if 0x08 <= fsc && fsc <= 0x0B {
        "access flag fault"
    } else if 0x0C <= fsc && fsc <= 0x0F {
        "permission fault"
    } else if fsc == 0x10 {
        "external bus error"
    } else if fsc == 0x21 {
        "unaligned access"
    } else {
        "(FSC not catalogued yet)"
    }
}

/// The name of vector entry `index`: its source and its kind.
pub open spec fn source_text(index: u64) -> Seq<char> {
    if index == 0 {
        "Current EL / SP_EL0 · Synchronous"@
    } else if index == 1 {
        "Current EL / SP_EL0 · IRQ"@
    } else if index == 2 {
        "Current EL / SP_EL0 · FIQ"@
    } else if index == 3 {
        "Current EL / SP_EL0 · SError"@
    } else if index == 4 {
        "Current EL / SP_ELx · Synchronous"@
    } else if index == 5 {
        "Current EL / SP_ELx · IRQ"@
    } else if index == 6 {
        "Current EL / SP_ELx · FIQ"@
    } else if index == 7 {
        "Current EL / SP_ELx · SError"@
    } else if index == 8 {
        "Lower EL (64-bit) · Synchronous"@
    } else if index == 9 {
        "Lower EL (64-bit) · IRQ"@
    } else if index == 10 {
        "Lower EL (64-bit) · FIQ"@
    } else if index == 11 {
        "Lower EL (64-bit) · SError"@
    } else if index == 12 {
        "Lower EL (32-bit) · Synchronous"@
    } else if index == 13 {
        "Lower EL (32-bit) · IRQ"@
    } else if index == 14 {
        "Lower EL (32-bit) · FIQ"@
    } else if index == 15 {
        "Lower EL (32-bit) · SError"@
    } else {
        "?"@
    }
}

/// Name the vector entry `index`; "?" for an index past the 16 entries.
pub fn source_name(index: u64) -> (r: &'static str)
    ensures
        r@ == source_text(index),
{
    if index == 0 {
        "Current EL / SP_EL0 · Synchronous"
    } else if index == 1 {
        "Current EL / SP_EL0 · IRQ"
    } else if index == 2 {
        "Current EL / SP_EL0 · FIQ"
    } else if index == 3 {
        "Current EL / SP_EL0 · SError"
    } else if index == 4 {
        "Current EL / SP_ELx · Synchronous"
    } else if index == 5 {
        "Current EL / SP_ELx · IRQ"
    } else if index == 6 {
        "Current EL / SP_ELx · FIQ"
    } else if index == 7 {
        "Current EL / SP_ELx · SError"
    } else if index == 8 {
        "Lower EL (64-bit) · Synchronous"
    } else if index == 9 {
        "Lower EL (64-bit) · IRQ"
    } else if index == 10 {
        "Lower EL (64-bit) · FIQ"
    } else if index == 11 {
        "Lower EL (64-bit) · SError"
    } else if index == 12 {
        "Lower EL (32-bit) · Synchronous"
    } else if index == 13 {
        "Lower EL (32-bit) · IRQ"
    } else if index == 14 {
        "Lower EL (32-bit) · FIQ"
    } else if index == 15 {
        "Lower EL (32-bit) · SError"
    } else {
        "?"
    }
}

/// The full report of a fault that halts the kernel.
pub struct FaultReport {
    /// Vector entry the exception came through.
    pub index: u64,
    /// Exception class, ESR_EL1 bits[31:26].
    pub ec: u64,
    /// Fault status code, ESR_EL1 bits[5:0].
    pub fsc: u64,
    /// Whether the class is a data or instruction abort, for which the
    /// report gives the fault status and the fault address.
    pub is_abort: bool,
    pub far: u64,
    pub elr: u64,
    pub esr: u64,
    pub spsr: u64,
    /// Whether recovery was armed when the fault came.
    pub was_armed: bool,
}

/// What the handler decides for one exception.
pub enum ExceptionOutcome {
    /// Report the fault in one line and resume at `resume_at`, the
    /// instruction after the faulting one.
    Recovered { fsc: u64, far: u64, resume_at: u64 },
    /// Print the full report and halt.
    Halt(FaultReport),
}

impl ExceptionOutcome {
    /// The verdict handed back to the vector trampoline.
    pub fn verdict(&self) -> (v: u64)
        ensures
            v == if self is Recovered { RESUME } else { HALT },
    {
        match self {
            ExceptionOutcome::Recovered { .. } => RESUME,
            ExceptionOutcome::Halt(_) => HALT,
        }
    }
}

/// The single-shot recovery flag.
pub struct Recovery {
    armed: bool,
}

impl Recovery {
    /// Whether a recovery is armed.
    pub closed spec fn is_armed(&self) -> bool {
        self.armed
    }

    /// No recovery armed.
    pub fn new() -> (r: Recovery)
        ensures
            !r.is_armed(),
            r.is_armed() == armed_after(Seq::empty()),
    {
        Recovery { armed: false }
    }

    /// Arm a single recovery: the next synchronous data abort taken at the
    /// current EL is reported in one line, its instruction is skipped, and
    /// execution continues. Anything else still halts.
    pub fn arm_recovery(&mut self)
        ensures
            final(self).is_armed(),
            final(self).is_armed() == step(old(self).is_armed(), RecoveryEvent::Arm),
    {
        self.armed = true;
    }

    /// Whether a recovery is currently armed. Reading does not consume it.
    pub fn recovery_is_armed(&self) -> (r: bool)
        ensures
            r == self.is_armed(),
    {
        self.armed
    }

    /// Take the arming for the exception being handled: return whether
    /// recovery was armed and clear it. Every exception does this first,
    /// whether or not it turns out to qualify, so arming is single-shot.
    pub fn take_arming(&mut self) -> (armed: bool)
        ensures
            armed == old(self).is_armed(),
            !final(self).is_armed(),
            final(self).is_armed() == step(old(self).is_armed(), RecoveryEvent::Exception),
    {
        let armed = self.armed;
        self.armed = false;
        armed
    }

    /// Handle an exception taken through vector entry `index`, given the
    /// syndrome, fault address, return address and saved program status
    /// registers: take the arming, then decide. Only an armed, synchronous
    /// data abort taken at the current EL is recovered.
    pub fn handle(&mut self, index: u64, esr: u64, far: u64, elr: u64, spsr: u64) -> (out: ExceptionOutcome)
        requires
            recovers(old(self).is_armed(), index, esr) ==> elr <= u64::MAX - 4,
        ensures
            !final(self).is_armed(),
            final(self).is_armed() == step(old(self).is_armed(), RecoveryEvent::Exception),
            out is Recovered <==> recovers(old(self).is_armed(), index, esr),
            decided(out, old(self).is_armed(), index, esr, far, elr, spsr),
    {
        let armed = self.take_arming();
        decide(armed, index, esr, far, elr, spsr)
    }
}

/// What the handler hands back for an exception, given whether recovery was
/// armed: a recovered fault gives its fault status and address and resumes
/// at `elr + 4`; a halt reports everything that was read.
pub open spec fn decided(
    out: ExceptionOutcome,
    armed: bool,
    index: u64,
    esr: u64,
    far: u64,
    elr: u64,
    spsr: u64,
) -> bool {
    match out {
        ExceptionOutcome::Recovered { fsc, far: f, resume_at } => {
            &&& fsc == esr_fsc(esr)
            &&& f == far
            &&& resume_at == elr + 4
        },
        ExceptionOutcome::Halt(report) => {
            &&& report.index == index
            &&& report.ec == esr_ec(esr)
            &&& report.fsc == esr_fsc(esr)
            &&& report.is_abort == is_abort(esr_ec(esr))
            &&& report.far == far
            &&& report.elr == elr
            &&& report.esr == esr
            &&& report.spsr == spsr
            &&& report.was_armed == armed
        },
    }
}

/// Whether an exception through entry `index` with syndrome `esr` qualifies
/// for recovery, `armed` being what `take_arming` returned.
pub fn qualifies(armed: bool, index: u64, esr: u64) -> (r: bool)
    ensures
        r == recovers(armed, index, esr),
{
    let ec = exception_class(esr);
    armed && is_synchronous_entry(index) && ec == EC_DATA_ABORT_SAME
}

/// Decide what to do with an exception taken through vector entry `index`,
/// `armed` being whether recovery was armed when it came. A recovered fault
/// resumes at `elr + 4`: A64 instructions are always 4 bytes wide, so this
/// is the instruction after the faulting one.
pub fn decide(armed: bool, index: u64, esr: u64, far: u64, elr: u64, spsr: u64) -> (out: ExceptionOutcome)
    requires
        recovers(armed, index, esr) ==> elr <= u64::MAX - 4,
    ensures
        out is Recovered <==> recovers(armed, index, esr),
        decided(out, armed, index, esr, far, elr, spsr),
{
    let ec = exception_class(esr);
    let fsc = fault_status(esr);
    if qualifies(armed, index, esr) {
        return ExceptionOutcome::Recovered { fsc, far, resume_at: elr + 4 };
    }
    let is_abort = ec == EC_DATA_ABORT_LOWER || ec == EC_DATA_ABORT_SAME || ec == EC_INSTR_ABORT_LOWER
        || ec == EC_INSTR_ABORT_SAME;
    ExceptionOutcome::Halt(FaultReport { index, ec, fsc, is_abort, far, elr, esr, spsr, was_armed: armed })
}

} // verus!
