//! PL011 UART, which QEMU virt maps at 0x0900_0000: the register map, the
//! values that set it up, and the bytes a string becomes on the wire.
use vstd::prelude::*;
use vstd::string::StringSliceAdditionalSpecFns;

verus! {

/// Physical address of the PL011.
pub const BASE: usize = 0x0900_0000;

/// Register offsets.
pub const DR: usize = 0x00;
pub const FR: usize = 0x18;
pub const IBRD: usize = 0x24;
pub const FBRD: usize = 0x28;
pub const LCRH: usize = 0x2C;
pub const CR: usize = 0x30;

/// FR: the transmit FIFO is full.
pub const FR_TXFF: u32 = 1 << 5;

/// Address of the register at offset `off`.
pub fn reg(off: usize) -> (addr: usize)
    requires
        off <= usize::MAX - BASE,
    ensures
        addr == BASE + off,
{
    BASE + off
}

/// The register writes that set the UART up, in order: disable it first,
/// then the baud rate divisors for 115200 baud from 24 MHz
/// (24 MHz / (16 x 115200) = 13 + 1/64), 8 data bits, no parity, one stop
/// bit with the FIFOs on, and finally enable the UART, TX and RX.
pub fn init_sequence() -> (w: [(usize, u32); 5])
    ensures
        w@ == seq![
            ((BASE + CR) as usize, 0u32),
            ((BASE + IBRD) as usize, 13u32),
            ((BASE + FBRD) as usize, 1u32),
            ((BASE + LCRH) as usize, 0x70u32),
            ((BASE + CR) as usize, 0x301u32),
        ],
{
    let lcrh: u32 = (0b11u32 << 5u32) | (1u32 << 4u32);
    let cr: u32 = (1u32 << 0u32) | (1u32 << 8u32) | (1u32 << 9u32);
    assert(lcrh == 0x70 && cr == 0x301) by (bit_vector)
        requires
            lcrh == (0b11u32 << 5u32) | (1u32 << 4u32),
            cr == (1u32 << 0u32) | (1u32 << 8u32) | (1u32 << 9u32);
    let w = [(reg(CR), 0u32), (reg(IBRD), 13u32), (reg(FBRD), 1u32), (reg(LCRH), lcrh), (reg(CR), cr)];
    assert(w@ =~= seq![
        ((BASE + CR) as usize, 0u32),
        ((BASE + IBRD) as usize, 13u32),
        ((BASE + FBRD) as usize, 1u32),
        ((BASE + LCRH) as usize, 0x70u32),
        ((BASE + CR) as usize, 0x301u32),
    ]);
    w
}

/// Whether the flag register `fr` says the transmit FIFO is full, so the
/// next byte has to wait.
pub fn tx_fifo_full(fr: u32) -> (full: bool)
    ensures
        full == (fr & FR_TXFF != 0),
{
    fr & FR_TXFF != 0
}

/// The bytes that go on the wire for `s`: a terminal wants CRLF, so every
/// line feed is sent as carriage return, line feed; every other byte as it
/// is.
pub open spec fn crlf(s: Seq<u8>) -> Seq<u8>
    decreases s.len(),
{
    if s.len() == 0 {
        Seq::empty()
    } else {
        crlf(s.drop_last()) + if s.last() == 10u8 {
            seq![13u8, 10u8]
        } else {
            seq![s.last()]
        }
    }
}

/// Only line feeds change on the wire: a line feed goes out as carriage
/// return, line feed, and every other byte (ASCII or not, a carriage return
/// included) goes out as itself, so text without a line feed is sent
/// unchanged and each line feed adds exactly one byte.
pub proof fn lemma_only_line_feeds_change(b: u8, s: Seq<u8>)
    ensures
        b != 10u8 ==> crlf(seq![b]) == seq![b],
        crlf(seq![10u8]) == seq![13u8, 10u8],
        (forall|i: int| 0 <= i < s.len() ==> s[i] != 10u8) ==> crlf(s) == s,
        crlf(s).len() == s.len() + s.filter(|x: u8| x == 10u8).len(),
    decreases s.len(),
{
    assert(crlf(Seq::<u8>::empty()) == Seq::<u8>::empty());
    assert(seq![b].drop_last() =~= Seq::<u8>::empty());
    assert(seq![10u8].drop_last() =~= Seq::<u8>::empty());
    assert(crlf(seq![b]) =~= Seq::<u8>::empty() + if b == 10u8 { seq![13u8, 10u8] } else { seq![b] });
    assert(crlf(seq![10u8]) =~= Seq::<u8>::empty() + seq![13u8, 10u8]);
    if s.len() == 0 {
        assert(s.filter(|x: u8| x == 10u8) =~= Seq::<u8>::empty());
    } else {
        let p = s.drop_last();
        lemma_only_line_feeds_change(b, p);
        assert(s =~= p.push(s.last()));
        p.lemma_filter_push(s.last(), |x: u8| x == 10u8);
        if forall|i: int| 0 <= i < s.len() ==> s[i] != 10u8 {
            assert forall|i: int| 0 <= i < p.len() implies p[i] != 10u8 by {
                assert(p[i] == s[i]);
            }
            assert(s.last() == s[s.len() - 1]);
            assert(crlf(s) =~= p + seq![s.last()]);
        }
    }
}

/// Writing in pieces puts the same bytes on the wire as writing everything
/// at once: the wire bytes of a concatenation are the wire bytes of each
/// part, one after the other.
pub proof fn lemma_crlf_concat(a: Seq<u8>, b: Seq<u8>)
    ensures
        crlf(a + b) == crlf(a) + crlf(b),
    decreases b.len(),
{
    if b.len() == 0 {
        assert(a + b =~= a);
        assert(crlf(a) + crlf(b) =~= crlf(a));
    } else {
        lemma_crlf_concat(a, b.drop_last());
        assert((a + b).drop_last() =~= a + b.drop_last());
        assert((a + b).last() == b.last());
        let tail = if b.last() == 10u8 { seq![13u8, 10u8] } else { seq![b.last()] };
        assert(crlf(a) + crlf(b.drop_last()) + tail =~= crlf(a) + (crlf(b.drop_last()) + tail));
    }
}

/// The PL011 as a text sink.
pub struct Uart;

impl Uart {
    /// The bytes to put on the wire for the single byte `b`: the first `n`
    /// entries of `out`. Needs no allocation, so it can be used where no
    /// heap may be touched, such as in an exception handler.
    pub fn wire_bytes_of(&self, b: u8) -> (r: ([u8; 2], usize))
        ensures
            r.1 <= 2,
            r.0@.take(r.1 as int) == crlf(seq![b]),
            b != 10u8 ==> r.1 == 1 && r.0[0] == b,
            b == 10u8 ==> r.1 == 2 && r.0[0] == 13u8 && r.0[1] == 10u8,
    {
        proof {
            assert(seq![b].drop_last() =~= Seq::<u8>::empty());
            assert(seq![b].last() == b);
            assert(crlf(Seq::<u8>::empty()) == Seq::<u8>::empty());
            let tail = if b == 10u8 { seq![13u8, 10u8] } else { seq![b] };
            assert(crlf(seq![b]) =~= Seq::<u8>::empty() + tail);
        }
        if b == 10u8 {
            let out = [13u8, 10u8];
            assert(out@.take(2) =~= seq![13u8, 10u8]);
            (out, 2)
        } else {
            let out = [b, 0u8];
            assert(out@.take(1) =~= seq![b]);
            (out, 1)
        }
    }

    /// The bytes to put on the wire, in order, to write `s`.
    pub fn wire_bytes(&self, s: &str) -> (out: Vec<u8>)
        ensures
            out@ == crlf(s.spec_bytes()),
    {
        let bytes = s.as_bytes();
        let mut out: Vec<u8> = Vec::new();
        let mut i: usize = 0;
        while i < bytes.len()
            invariant
                0 <= i <= bytes@.len(),
                bytes@ == s.spec_bytes(),
                out@ == crlf(bytes@.take(i as int)),
            decreases bytes@.len() - i,
        {
            let b = bytes[i];
            let (piece, n) = self.wire_bytes_of(b);
            let ghost before = out@;
            let mut k: usize = 0;
            while k < n
                invariant
                    n <= 2,
                    k <= n,
                    out@ == before + piece@.take(k as int),
                decreases n - k,
            {
                out.push(piece[k]);
                assert(piece@.take(k + 1) =~= piece@.take(k as int).push(piece@[k as int]));
                k = k + 1;
            }
            proof {
                assert(bytes@.take(i + 1) =~= bytes@.take(i as int) + seq![b]);
                lemma_crlf_concat(bytes@.take(i as int), seq![b]);
            }
            i = i + 1;
        }
        proof {
            assert(bytes@.take(bytes@.len() as int) =~= bytes@);
        }
        out
    }
}

} // verus!
