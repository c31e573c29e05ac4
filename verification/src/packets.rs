//! Vendor command packets of the USB-to-SPI bridge.
//!
//! Every outbound command packet is `[opcode, length_lo, length_hi, payload...]`:
//! the length is the payload size in bytes as a little-endian 16-bit value,
//! excluding the three-byte header, so that header plus payload never exceed
//! 510 bytes.

use vstd::prelude::*;

verus! {

/// Largest bulk packet the bridge accepts: a three-byte header plus payload.
pub const PACKET_SIZE: usize = 510;

/// Payload bytes that fit in one bulk packet beside the three-byte header.
pub const MAX_DATA_LEN: usize = 507;

/// Configure the SPI interface.
pub const CMD_SPI_SET_CFG: u8 = 0xC0;

/// Chip-select control.
pub const CMD_SPI_CS_CTRL: u8 = 0xC1;

/// Write and read simultaneously (reserved, unused here).
pub const CMD_SPI_OUT_IN: u8 = 0xC2;

/// Read only.
pub const CMD_SPI_IN: u8 = 0xC3;

/// Write only.
pub const CMD_SPI_OUT: u8 = 0xC4;

/// Get the SPI configuration (unused here).
pub const CMD_SPI_GET_CFG: u8 = 0xCA;

/// Assert CS (the line is active low).
pub const CS_ASSERT: u8 = 0x00;

/// Deassert CS.
pub const CS_DEASSERT: u8 = 0x40;

/// Must accompany every CS transition.
pub const CS_CHANGE: u8 = 0x80;

/// Leave this CS line alone.
pub const CS_IGNORE: u8 = 0x00;

/// SPI clock divisor settings: 60 MHz down to 468.75 kHz, halving each step.
#[derive(Debug, Clone, Copy, PartialEq, Eq, Structural)]
pub enum SpiClock {
    Clk60MHz,
    Clk30MHz,
    Clk15MHz,
    Clk7_5MHz,
    Clk3_75MHz,
    Clk1_875MHz,
    Clk937_5KHz,
    Clk468_75KHz,
}

/// The divisor value a clock setting stands for.
pub open spec fn spec_divisor(c: SpiClock) -> u8 {
    match c {
        SpiClock::Clk60MHz => 0,
        SpiClock::Clk30MHz => 1,
        SpiClock::Clk15MHz => 2,
        SpiClock::Clk7_5MHz => 3,
        SpiClock::Clk3_75MHz => 4,
        SpiClock::Clk1_875MHz => 5,
        SpiClock::Clk937_5KHz => 6,
        SpiClock::Clk468_75KHz => 7,
    }
}

impl SpiClock {
    /// The divisor value sent to the bridge.
    pub fn divisor(&self) -> (r: u8)
        ensures
            r == spec_divisor(*self),
            r <= 7,
    {
        match self {
            SpiClock::Clk60MHz => 0,
            SpiClock::Clk30MHz => 1,
            SpiClock::Clk15MHz => 2,
            SpiClock::Clk7_5MHz => 3,
            SpiClock::Clk3_75MHz => 4,
            SpiClock::Clk1_875MHz => 5,
            SpiClock::Clk937_5KHz => 6,
            SpiClock::Clk468_75KHz => 7,
        }
    }
}

impl Default for SpiClock {
    /// 15 MHz, a safe default for most flash parts.
    fn default() -> (r: Self)
        ensures
            r == SpiClock::Clk15MHz,
    {
        SpiClock::Clk15MHz
    }
}

/// The 29-byte configuration packet: mode 0 (CPOL = 0, CPHA = 0), MSB first,
/// CS active low, the divisor in bits 5:3 of byte 15. Bytes 5, 6, 14 and 19
/// carry fixed constants the bridge firmware requires; their meaning is not
/// documented by the vendor and they must not be altered.
pub open spec fn config_packet(c: SpiClock) -> Seq<u8> {
    seq![
        CMD_SPI_SET_CFG,
        26u8,
        0u8,
        0u8,
        0u8,
        4u8,
        1u8,
        0u8,
        0u8,
        0u8,
        0u8,
        0u8,
        0u8,
        0u8,
        2u8,
        (spec_divisor(c) << 3) as u8,
        0u8,
        0u8,
        0u8,
        7u8,
        0u8,
        0u8,
        0u8,
        0u8,
        0u8,
        0u8,
        0u8,
        0u8,
        0u8,
    ]
}

/// Build the configuration packet for one clock setting.
pub fn make_config_packet(clock: SpiClock) -> (pkt: Vec<u8>)
    ensures
        pkt@ == config_packet(clock),
        pkt@.len() == 29,
{
    let mut pkt: Vec<u8> = vec![0u8; 29];
    pkt[0] = CMD_SPI_SET_CFG;
    pkt[1] = 26;
    pkt[5] = 4;
    pkt[6] = 1;
    pkt[14] = 2;
    pkt[15] = clock.divisor() << 3;
    pkt[19] = 7;
    assert(pkt@ =~= config_packet(clock));
    pkt
}

/// Every configuration payload encodes the divisor left-shifted into bits 5:3
/// of its designated byte, recoverable by shifting back, and the CPOL, CPHA
/// and bit-order bytes are always zero: SPI mode 0, MSB first.
pub proof fn lemma_config_roundtrip(c: SpiClock)
    ensures
        config_packet(c).len() == 29,
        config_packet(c).subrange(3, 29).len() == 26,
        config_packet(c)[15] == (spec_divisor(c) << 3) as u8,
        (config_packet(c)[15] >> 3) & 7 == spec_divisor(c),
        config_packet(c)[9] == 0,
        config_packet(c)[11] == 0,
        config_packet(c)[17] == 0,
{
    let d = spec_divisor(c);
    assert(d <= 7);
    assert((((d << 3) as u8) >> 3) & 7 == d) by (bit_vector)
        requires
            d <= 7,
    ;
}

/// The 13-byte chip-select packet: byte 3 drives CS line 1 (assert is the
/// active-low value, deassert a distinct pattern, both with the change flag),
/// byte 8 leaves CS line 2 alone.
pub open spec fn cs_packet(active: bool) -> Seq<u8> {
    seq![
        CMD_SPI_CS_CTRL,
        10u8,
        0u8,
        if active {
            (CS_ASSERT | CS_CHANGE) as u8
        } else {
            (CS_DEASSERT | CS_CHANGE) as u8
        },
        0u8,
        0u8,
        0u8,
        0u8,
        CS_IGNORE,
        0u8,
        0u8,
        0u8,
        0u8,
    ]
}

/// Build the chip-select packet.
pub fn make_cs_packet(active: bool) -> (pkt: Vec<u8>)
    ensures
        pkt@ == cs_packet(active),
        pkt@.len() == 13,
{
    let mut pkt: Vec<u8> = vec![0u8; 13];
    pkt[0] = CMD_SPI_CS_CTRL;
    pkt[1] = 10;
    if active {
        pkt[3] = CS_ASSERT | CS_CHANGE;
    } else {
        pkt[3] = CS_DEASSERT | CS_CHANGE;
    }
    pkt[8] = CS_IGNORE;
    assert(pkt@ =~= cs_packet(active));
    pkt
}

/// A write-opcode packet wrapping one chunk of payload.
pub open spec fn write_packet(chunk: Seq<u8>) -> Seq<u8> {
    seq![
        CMD_SPI_OUT,
        (chunk.len() % 256) as u8,
        ((chunk.len() / 256) % 256) as u8,
    ] + chunk
}

/// Wrap `data[offset .. offset + len]` in a write-opcode packet.
pub fn make_write_packet(data: &[u8], offset: usize, len: usize) -> (pkt: Vec<u8>)
    requires
        offset + len <= data@.len(),
        len <= MAX_DATA_LEN,
    ensures
        pkt@ == write_packet(data@.subrange(offset as int, offset + len)),
        pkt@.len() == 3 + len,
{
    let total: usize = data.len();
    let mut pkt: Vec<u8> = Vec::new();
    pkt.push(CMD_SPI_OUT);
    pkt.push((len % 256) as u8);
    pkt.push(((len / 256) % 256) as u8);
    let mut i: usize = 0;
    while i < len
        invariant
            i <= len,
            offset + len <= data@.len(),
            data@.len() == total,
            pkt@ =~= write_packet(data@.subrange(offset as int, offset + len)).take(3 + i),
        decreases len - i,
    {
        pkt.push(data[offset + i]);
        assert(pkt@ =~= write_packet(data@.subrange(offset as int, offset + len)).take(3 + i + 1));
        i = i + 1;
    }
    assert(pkt@ =~= write_packet(data@.subrange(offset as int, offset + len)));
    pkt
}

/// The 7-byte read command carrying the total requested byte count as a
/// little-endian 32-bit value.
pub open spec fn read_cmd_packet(count: nat) -> Seq<u8> {
    seq![
        CMD_SPI_IN,
        4u8,
        0u8,
        (count % 256) as u8,
        ((count / 256) % 256) as u8,
        ((count / 65536) % 256) as u8,
        ((count / 16777216) % 256) as u8,
    ]
}

/// Build the read command for `count` requested bytes.
pub fn make_read_cmd_packet(count: usize) -> (pkt: Vec<u8>)
    requires
        count <= 0xFFFF_FFFF,
    ensures
        pkt@ == read_cmd_packet(count as nat),
        pkt@.len() == 7,
{
    let mut pkt: Vec<u8> = Vec::new();
    pkt.push(CMD_SPI_IN);
    pkt.push(4);
    pkt.push(0);
    pkt.push((count % 256) as u8);
    pkt.push(((count / 256) % 256) as u8);
    pkt.push(((count / 65536) % 256) as u8);
    pkt.push(((count / 16777216) % 256) as u8);
    assert(pkt@ =~= read_cmd_packet(count as nat));
    pkt
}

/// The length of the next write chunk: at most `MAX_DATA_LEN` bytes of what
/// remains of a `total`-byte payload after `written` bytes went out.
pub fn write_chunk_len(total: usize, written: usize) -> (r: usize)
    requires
        written < total,
    ensures
        r == if total - written < 507 {
            total - written
        } else {
            507
        },
        1 <= r <= 507,
        written + r <= total,
{
    let remaining = total - written;
    if remaining < MAX_DATA_LEN {
        remaining
    } else {
        MAX_DATA_LEN
    }
}

/// The chunk lengths a write payload of `n` bytes is split into: full chunks
/// of `MAX_DATA_LEN` bytes, then the remainder.
pub open spec fn wchunks(n: nat) -> Seq<nat>
    decreases n,
{
    if n == 0 {
        Seq::empty()
    } else if n <= 507 {
        seq![n]
    } else {
        seq![507 as nat] + wchunks((n - 507) as nat)
    }
}

/// Every write payload splits into chunks of exactly `MAX_DATA_LEN` bytes
/// except the final remainder chunk, and the number of chunks is the payload
/// length divided by `MAX_DATA_LEN`, rounded up.
pub proof fn lemma_write_chunks(n: nat)
    requires
        n > 0,
    ensures
        wchunks(n).len() == (n + 506) / 507,
        forall|i: int| 0 <= i < wchunks(n).len() - 1 ==> wchunks(n)[i] == 507,
        wchunks(n)[wchunks(n).len() - 1] == n - 507 * (wchunks(n).len() - 1),
        0 < wchunks(n)[wchunks(n).len() - 1] <= 507,
    decreases n,
{
    if n <= 507 {
        assert(wchunks(n) =~= seq![n]);
    } else {
        lemma_write_chunks((n - 507) as nat);
        let rest = wchunks((n - 507) as nat);
        assert(wchunks(n) =~= seq![507 as nat] + rest);
        assert(wchunks(n).len() == 1 + rest.len());
        assert forall|i: int| 0 <= i < wchunks(n).len() - 1 implies wchunks(n)[i] == 507 by {
            if i > 0 {
                assert(wchunks(n)[i] == rest[i - 1]);
            }
        }
        assert(wchunks(n)[wchunks(n).len() - 1] == rest[rest.len() - 1]);
        assert(507 * (wchunks(n).len() - 1) == 507 + 507 * (rest.len() - 1)) by (nonlinear_arith)
            requires wchunks(n).len() == 1 + rest.len() && rest.len() >= 1;
    }
}

/// The chunk lengths sum back to the payload length.
pub proof fn lemma_wchunks_sum(n: nat)
    ensures
        sum_nat(wchunks(n)) == n,
    decreases n,
{
    if n == 0 {
        assert(wchunks(n) =~= Seq::<nat>::empty());
    } else if n <= 507 {
        assert(wchunks(n) =~= seq![n]);
        assert(sum_nat(seq![n]) == n + sum_nat(seq![n].drop_first()));
        assert(seq![n].drop_first() =~= Seq::<nat>::empty());
    } else {
        lemma_wchunks_sum((n - 507) as nat);
        assert((seq![507 as nat] + wchunks((n - 507) as nat)).drop_first() =~= wchunks((n - 507) as nat));
    }
}

/// The sum of a sequence of lengths.
pub open spec fn sum_nat(s: Seq<nat>) -> nat
    decreases s.len(),
{
    if s.len() == 0 {
        0
    } else {
        s[0] + sum_nat(s.drop_first())
    }
}

} // verus!
