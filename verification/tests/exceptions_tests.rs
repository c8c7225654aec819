use lintsomax::exceptions::{
    decide, describe_ec, describe_fsc, exception_class, fault_status, is_synchronous_entry, qualifies, source_name,
    ExceptionFrame, ExceptionOutcome, Recovery, HALT, RESUME,
};

/// ESR_EL1 of a data abort at the same EL with the given fault status.
fn data_abort(fsc: u64) -> u64 {
    (0x25 << 26) | (1 << 25) | fsc
}

#[test]
fn esr_fields() {
    let esr = data_abort(0x05);
    assert_eq!(exception_class(esr), 0x25);
    assert_eq!(fault_status(esr), 0x05);
    assert_eq!(exception_class(0x5600_0000), 0x15);
}

#[test]
fn exception_classes_are_named() {
    assert_eq!(describe_ec(0x00), "unknown reason");
    assert_eq!(describe_ec(0x15), "SVC system call");
    assert_eq!(describe_ec(0x24), "data abort (from a lower EL)");
    assert_eq!(describe_ec(0x25), "data abort (same EL)");
    assert_eq!(describe_ec(0x30), "hardware breakpoint");
    assert_eq!(describe_ec(0x31), "hardware breakpoint");
    assert_eq!(describe_ec(0x3C), "BRK debug instruction");
    assert_eq!(describe_ec(0x3F), "(EC not catalogued yet)");
}

#[test]
fn fault_status_codes_are_named() {
    assert_eq!(describe_fsc(0x00), "address size fault");
    assert_eq!(describe_fsc(0x03), "address size fault");
    assert_eq!(describe_fsc(0x04), "translation fault level 0 (no page table at all)");
    assert_eq!(describe_fsc(0x07), "translation fault level 3");
    assert_eq!(describe_fsc(0x0B), "access flag fault");
    assert_eq!(describe_fsc(0x0F), "permission fault");
    assert_eq!(describe_fsc(0x10), "external bus error");
    assert_eq!(describe_fsc(0x21), "unaligned access");
    assert_eq!(describe_fsc(0x11), "(FSC not catalogued yet)");
}

#[test]
fn vector_entries_are_named_and_every_fourth_is_synchronous() {
    assert_eq!(source_name(4), "Current EL / SP_ELx · Synchronous");
    assert_eq!(source_name(9), "Lower EL (64-bit) · IRQ");
    assert_eq!(source_name(15), "Lower EL (32-bit) · SError");
    assert_eq!(source_name(16), "?");
    for i in 0..16u64 {
        assert_eq!(is_synchronous_entry(i), source_name(i).ends_with("Synchronous"));
    }
}

#[test]
fn arming_sets_the_flag() {
    let mut r = Recovery::new();
    assert!(!r.recovery_is_armed());
    r.arm_recovery();
    assert!(r.recovery_is_armed());
}

#[test]
fn armed_data_abort_is_recovered_once() {
    let mut r = Recovery::new();
    r.arm_recovery();
    // A translation fault on an unmapped address.
    let out = r.handle(4, data_abort(0x05), 0x8000_0000, 0x4010_1234, 0x3c5);
    assert_eq!(out.verdict(), RESUME);
    match out {
        ExceptionOutcome::Recovered { fsc, far, resume_at } => {
            assert_eq!(fsc, 0x05);
            assert_eq!(far, 0x8000_0000);
            assert_eq!(resume_at, 0x4010_1238);
        }
        ExceptionOutcome::Halt(_) => panic!("an armed data abort must be recovered"),
    }
    // Arming is single-shot: the same fault again halts.
    assert!(!r.recovery_is_armed());
    let again = r.handle(4, data_abort(0x05), 0x8000_0000, 0x4010_1234, 0x3c5);
    assert_eq!(again.verdict(), HALT);
}

#[test]
fn armed_data_abort_from_lower_el_halts_and_consumes_arming() {
    let mut r = Recovery::new();
    r.arm_recovery();
    let esr = 0x9200_0045;
    assert!(!qualifies(r.recovery_is_armed(), 8, esr));
    let out = r.handle(8, esr, 0x4010_8000, 0x1000, 0);
    assert_eq!(out.verdict(), HALT);
    assert!(!r.recovery_is_armed());
    match out {
        ExceptionOutcome::Halt(report) => {
            assert_eq!(report.ec, 0x24);
            assert_eq!(report.elr, 0x1000);
            assert!(report.was_armed);
        }
        ExceptionOutcome::Recovered { .. } => panic!("a lower-EL data abort must not be recovered"),
    }
}

#[test]
fn only_armed_synchronous_same_el_data_aborts_qualify() {
    assert!(!qualifies(false, 4, data_abort(0x05)));
    assert!(qualifies(true, 4, data_abort(0x05)));
    assert!(qualifies(true, 0, data_abort(0x0F)));
    assert!(qualifies(true, 8, data_abort(0x0F)));
    assert!(!qualifies(true, 5, data_abort(0x05)));
    assert!(!qualifies(true, 4, 0x15 << 26));
    assert!(!qualifies(true, 4, (0x24 << 26) | 0x05));
}

#[test]
fn taking_the_arming_clears_it_whatever_comes_next() {
    let mut r = Recovery::new();
    assert!(!r.take_arming());
    r.arm_recovery();
    assert!(r.recovery_is_armed());
    assert!(r.take_arming());
    assert!(!r.recovery_is_armed());
    assert!(!r.take_arming());
}

#[test]
fn decide_alone_matches_handle() {
    let esr = data_abort(0x0F);
    match decide(true, 4, esr, 0x4000_0000, 0x4010_0010, 0) {
        ExceptionOutcome::Recovered { fsc, far, resume_at } => {
            assert_eq!((fsc, far, resume_at), (0x0F, 0x4000_0000, 0x4010_0014));
        }
        ExceptionOutcome::Halt(_) => panic!("an armed same-EL data abort must be recovered"),
    }
    match decide(false, 4, esr, 0x4000_0000, u64::MAX, 7) {
        ExceptionOutcome::Halt(report) => {
            assert_eq!(report.elr, u64::MAX);
            assert_eq!(report.spsr, 7);
            assert!(!report.was_armed);
        }
        ExceptionOutcome::Recovered { .. } => panic!("an unarmed fault must halt"),
    }
}

#[test]
fn arming_again_after_a_fault_rearms_once() {
    let mut r = Recovery::new();
    r.arm_recovery();
    r.arm_recovery();
    let first = r.handle(4, 0x15 << 26, 0, 0x4010_0000, 0);
    assert_eq!(first.verdict(), HALT);
    assert!(!r.recovery_is_armed());
    r.arm_recovery();
    assert!(r.recovery_is_armed());
    let second = r.handle(4, data_abort(0x0F), 0x4000_0000, 0x4010_0010, 0);
    assert_eq!(second.verdict(), RESUME);
    assert!(!r.recovery_is_armed());
}

#[test]
fn armed_svc_still_halts_and_consumes_arming() {
    let mut r = Recovery::new();
    r.arm_recovery();
    let esr = 0x15 << 26;
    let out = r.handle(4, esr, 0, 0x4010_2000, 0x3c5);
    assert_eq!(out.verdict(), HALT);
    assert!(!r.recovery_is_armed());
    match out {
        ExceptionOutcome::Halt(report) => {
            assert_eq!(report.index, 4);
            assert_eq!(report.ec, 0x15);
            assert!(!report.is_abort);
            assert!(report.was_armed);
            assert_eq!(report.elr, 0x4010_2000);
            assert_eq!(report.esr, esr);
            assert_eq!(report.spsr, 0x3c5);
        }
        ExceptionOutcome::Recovered { .. } => panic!("an SVC must not be recovered"),
    }
}

#[test]
fn armed_irq_with_stale_data_abort_syndrome_halts() {
    let mut r = Recovery::new();
    r.arm_recovery();
    let out = r.handle(5, data_abort(0x06), 0, 0x4010_0000, 0);
    assert_eq!(out.verdict(), HALT);
    assert!(!r.recovery_is_armed());
}

#[test]
fn unarmed_fault_halts_with_full_report() {
    let mut r = Recovery::new();
    let out = r.handle(4, data_abort(0x07), 0xdead_0000, 0x4010_0040, 0x5);
    match out {
        ExceptionOutcome::Halt(report) => {
            assert_eq!(report.ec, 0x25);
            assert_eq!(report.fsc, 0x07);
            assert!(report.is_abort);
            assert_eq!(report.far, 0xdead_0000);
            assert!(!report.was_armed);
        }
        ExceptionOutcome::Recovered { .. } => panic!("an unarmed fault must halt"),
    }
    let instr_abort = r.handle(4, 0x21 << 26, 0, 0, 0);
    match instr_abort {
        ExceptionOutcome::Halt(report) => assert!(report.is_abort),
        ExceptionOutcome::Recovered { .. } => panic!("an instruction abort must halt"),
    }
}

#[test]
fn exception_frame_holds_the_registers() {
    let mut f = ExceptionFrame { x: [0; 31], _pad: 0 };
    f.x[30] = 0x4010_0000;
    assert_eq!(f.x.len(), 31);
    assert_eq!(f.x[30], 0x4010_0000);
}
