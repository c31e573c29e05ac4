//! Tests of the protocol engine's packet encodings and chunking.

use ch347_flasher::ch347::Ch347Device;
use ch347_flasher::packets::{
    make_config_packet, make_cs_packet, make_read_cmd_packet, make_write_packet, write_chunk_len,
    SpiClock, MAX_DATA_LEN, PACKET_SIZE,
};

const ALL_CLOCKS: [SpiClock; 8] = [
    SpiClock::Clk60MHz,
    SpiClock::Clk30MHz,
    SpiClock::Clk15MHz,
    SpiClock::Clk7_5MHz,
    SpiClock::Clk3_75MHz,
    SpiClock::Clk1_875MHz,
    SpiClock::Clk937_5KHz,
    SpiClock::Clk468_75KHz,
];

#[test]
fn config_packet_layout() {
    let pkt = make_config_packet(SpiClock::Clk15MHz);
    assert_eq!(pkt.len(), 29);
    assert_eq!(pkt[0], 0xC0);
    assert_eq!(pkt[1], 26);
    assert_eq!(pkt[2], 0);
    assert_eq!(pkt[5], 4);
    assert_eq!(pkt[6], 1);
    assert_eq!(pkt[14], 2);
    assert_eq!(pkt[15], 2 << 3);
    assert_eq!(pkt[19], 7);
}

#[test]
fn config_divisor_round_trip() {
    for (i, clock) in ALL_CLOCKS.iter().enumerate() {
        let divisor = clock.divisor();
        assert_eq!(divisor as usize, i);
        let pkt = make_config_packet(*clock);
        let payload = &pkt[3..];
        assert_eq!(payload.len(), 26);
        // the divisor sits in bits 5:3 of its designated payload byte
        assert_eq!((payload[12] >> 3) & 7, divisor);
        // CPOL, CPHA and bit order are always zero: mode 0, MSB first
        assert_eq!(payload[6], 0);
        assert_eq!(payload[8], 0);
        assert_eq!(payload[14], 0);
    }
}

#[test]
fn default_clock_is_15mhz() {
    assert_eq!(SpiClock::default(), SpiClock::Clk15MHz);
    assert_eq!(SpiClock::default().divisor(), 2);
}

#[test]
fn cs_packet_layout() {
    let on = make_cs_packet(true);
    assert_eq!(on.len(), 13);
    assert_eq!(on[0], 0xC1);
    assert_eq!(on[1], 10);
    assert_eq!(on[2], 0);
    assert_eq!(on[3], 0x80); // assert (active low zero) with the change flag
    assert_eq!(on[8], 0x00); // CS line 2 is left alone
    let off = make_cs_packet(false);
    assert_eq!(off[3], 0xC0); // deassert with the change flag
    assert_ne!(on[3], off[3]);
}

#[test]
fn write_packet_wraps_chunk() {
    let data: Vec<u8> = (0..=255u8).collect();
    let pkt = make_write_packet(&data, 10, 4);
    assert_eq!(pkt, vec![0xC4, 4, 0, 10, 11, 12, 13]);
    let full = make_write_packet(&vec![0xAAu8; 600], 0, MAX_DATA_LEN);
    assert_eq!(full.len(), PACKET_SIZE);
    assert_eq!(full[1], (507 % 256) as u8);
    assert_eq!(full[2], (507 / 256) as u8);
}

#[test]
fn write_chunks_are_full_except_last() {
    // a 1024-byte payload goes out as 507 + 507 + 10, one ack read per chunk
    let total = 1024usize;
    let mut written = 0usize;
    let mut chunks = Vec::new();
    while written < total {
        let c = write_chunk_len(total, written);
        chunks.push(c);
        written += c;
    }
    assert_eq!(chunks, vec![507, 507, 10]);
    for (i, c) in chunks.iter().enumerate() {
        if i + 1 < chunks.len() {
            assert_eq!(*c, 507);
        }
    }
    // short payloads go out in one chunk
    assert_eq!(write_chunk_len(507, 0), 507);
    assert_eq!(write_chunk_len(3, 0), 3);
}

#[test]
fn read_cmd_packet_le32() {
    let pkt = make_read_cmd_packet(0x12345678);
    assert_eq!(pkt, vec![0xC3, 4, 0, 0x78, 0x56, 0x34, 0x12]);
    let small = make_read_cmd_packet(3);
    assert_eq!(small, vec![0xC3, 4, 0, 3, 0, 0, 0]);
}

#[test]
fn read_step_copies_declared_payload() {
    let mut out = vec![0u8; 8];
    // header declares 4 payload bytes; 7 bytes arrived
    let pkt = vec![0xC3, 4, 0, 0xDE, 0xAD, 0xBE, 0xEF];
    let newpos = Ch347Device::read_step(&mut out, 0, &pkt, 7).unwrap();
    assert_eq!(newpos, 4);
    assert_eq!(out, vec![0xDE, 0xAD, 0xBE, 0xEF, 0, 0, 0, 0]);
}

#[test]
fn read_step_clips_to_requested_total() {
    // the device declares more than is still owed: only the owed bytes are
    // copied, the cursor still advances by the declared length
    let mut out = vec![0u8; 2];
    let pkt = vec![0xC3, 4, 0, 1, 2, 3, 4];
    let newpos = Ch347Device::read_step(&mut out, 0, &pkt, 7).unwrap();
    assert_eq!(newpos, 4);
    assert_eq!(out, vec![1, 2]);
}

#[test]
fn read_step_rejects_short_transfer() {
    // a packet whose transferred byte count is less than the header plus the
    // declared length is an invalid response
    let mut out = vec![0u8; 8];
    let pkt = vec![0xC3, 5, 0, 1, 2, 3, 4];
    // 3 + 5 = 8 > 7 bytes transferred
    let r = Ch347Device::read_step(&mut out, 0, &pkt, 7);
    assert!(matches!(
        r,
        Err(ch347_flasher::ch347::Ch347Error::InvalidResponse)
    ));
    assert_eq!(out, vec![0u8; 8]);
}

#[test]
fn read_step_rejects_headerless_packet() {
    let mut out = vec![0u8; 8];
    let pkt = vec![0xC3, 9];
    let r = Ch347Device::read_step(&mut out, 0, &pkt, 2);
    assert!(matches!(
        r,
        Err(ch347_flasher::ch347::Ch347Error::InvalidResponse)
    ));
}

#[test]
fn read_step_rejects_empty_declaration() {
    // a packet declaring no payload would never advance towards the total
    let mut out = vec![0u8; 8];
    let pkt = vec![0xC3, 0, 0, 1, 2, 3, 4];
    let r = Ch347Device::read_step(&mut out, 0, &pkt, 7);
    assert!(matches!(
        r,
        Err(ch347_flasher::ch347::Ch347Error::InvalidResponse)
    ));
}

#[test]
fn read_cursor_never_exceeds_total_for_exact_packets() {
    // a well-behaved device answers a 600-byte request with packets that
    // declare exactly what is owed: the consumed total never exceeds it
    let requested = 600usize;
    let mut out = vec![0u8; requested];
    let mut pos = 0usize;
    let declares = [256usize, 256, 88];
    for d in declares {
        assert!(pos < requested);
        let mut pkt = vec![0xC3, (d & 0xFF) as u8, (d >> 8) as u8];
        pkt.extend(std::iter::repeat(0x5A).take(d));
        pos = Ch347Device::read_step(&mut out, pos, &pkt, pkt.len()).unwrap();
        assert!(pos <= requested);
    }
    assert_eq!(pos, requested);
    assert!(out.iter().all(|b| *b == 0x5A));
}
