use lintsomax::cpu::current_el;
use lintsomax::semihost::{exit_block, APP_EXIT, SYS_EXIT};
use lintsomax::uart::{init_sequence, reg, tx_fifo_full, Uart, BASE, CR, DR, FBRD, FR, IBRD, LCRH};

#[test]
fn registers_are_offsets_from_the_base() {
    assert_eq!(BASE, 0x0900_0000);
    assert_eq!(reg(DR), 0x0900_0000);
    assert_eq!(reg(FR), 0x0900_0018);
    assert_eq!(reg(CR), 0x0900_0030);
}

#[test]
fn uart_init_writes() {
    assert_eq!(
        init_sequence(),
        [
            (BASE + CR, 0),
            (BASE + IBRD, 13),
            (BASE + FBRD, 1),
            (BASE + LCRH, 0x70),
            (BASE + CR, 0x301),
        ]
    );
}

#[test]
fn transmit_waits_only_while_fifo_full() {
    assert!(tx_fifo_full(1 << 5));
    assert!(tx_fifo_full(0xff));
    assert!(!tx_fifo_full(0));
    assert!(!tx_fifo_full(0x90));
}

#[test]
fn line_feeds_become_crlf() {
    let u = Uart;
    assert_eq!(u.wire_bytes("a\nb"), b"a\r\nb".to_vec());
    assert_eq!(u.wire_bytes(""), Vec::<u8>::new());
    assert_eq!(u.wire_bytes("\n\n"), b"\r\n\r\n".to_vec());
    assert_eq!(u.wire_bytes("no newline"), b"no newline".to_vec());
    assert_eq!(u.wire_bytes("a\r\n"), b"a\r\r\n".to_vec());
}

#[test]
fn a_single_byte_goes_out_without_allocation() {
    let u = Uart;
    let (piece, n) = u.wire_bytes_of(b'\n');
    assert_eq!(&piece[..n], b"\r\n");
    let (piece, n) = u.wire_bytes_of(b'x');
    assert_eq!(&piece[..n], b"x");
    let (piece, n) = u.wire_bytes_of(b'\r');
    assert_eq!(&piece[..n], b"\r");
    let mut sent = Vec::new();
    for b in "ok\nfine\n".bytes() {
        let (piece, n) = u.wire_bytes_of(b);
        sent.extend_from_slice(&piece[..n]);
    }
    assert_eq!(sent, u.wire_bytes("ok\nfine\n"));
}

#[test]
fn register_address_for_any_offset_that_fits() {
    assert_eq!(reg(0x1000), 0x0900_1000);
    assert_eq!(reg(0x7fff_0000), 0x88ff_0000);
    assert_eq!(reg(usize::MAX - BASE), usize::MAX);
}

#[test]
fn writing_in_pieces_sends_the_same_bytes() {
    let u = Uart;
    let mut pieces = u.wire_bytes("  [1/6] UART\n");
    pieces.extend(u.wire_bytes("online\n"));
    assert_eq!(pieces, u.wire_bytes("  [1/6] UART\nonline\n"));
}

#[test]
fn semihosting_exit_block() {
    assert_eq!(SYS_EXIT, 0x18);
    assert_eq!(exit_block(0), [APP_EXIT, 0]);
    assert_eq!(exit_block(1), [0x2_0026, 1]);
}

#[test]
fn current_el_reads_bits_3_2() {
    assert_eq!(current_el(0b0100), 1);
    assert_eq!(current_el(0b1000), 2);
    assert_eq!(current_el(0b0000), 0);
}
