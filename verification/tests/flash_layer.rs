//! Tests of the flash command layer's registry, detection rules, chunking
//! and polling decisions.

use ch347_flasher::ch347::Ch347Error;
use ch347_flasher::flash::{
    get_flash_database, identify_chip, jedec_id_rejected, make_addr24_cmd, page_chunk_len,
    poll_decision, resolve_chip, slices_equal, unknown_chip, FlashChip, PollDecision, STATUS_WIP,
};

#[test]
fn database_has_no_duplicate_ids() {
    let db = get_flash_database();
    assert_eq!(db.len(), 16);
    for i in 0..db.len() {
        for j in 0..db.len() {
            if i != j {
                assert_ne!(db[i].jedec_id, db[j].jedec_id);
            }
        }
    }
    for chip in &db {
        assert_eq!(chip.page_size, 256);
        assert_eq!(chip.sector_size, 4096);
        assert_eq!(chip.block_size, 65536);
        assert!(chip.size > 0 && chip.size % chip.sector_size == 0);
    }
}

#[test]
fn identify_returns_winbond_record() {
    let chip = identify_chip(&[0xEF, 0x40, 0x17]).unwrap();
    assert_eq!(chip.name, "W25Q64");
    assert_eq!(chip.manufacturer, "Winbond");
    assert_eq!(chip.size, 8 * 1024 * 1024);
    assert_eq!(chip.page_size, 256);
    assert_eq!(chip.sector_size, 4096);
    assert_eq!(chip.block_size, 65536);
}

#[test]
fn identify_misses_unlisted_id() {
    assert!(identify_chip(&[0x11, 0x22, 0x18]).is_none());
    assert!(identify_chip(&[0xEF, 0x40, 0x14]).is_none());
}

#[test]
fn resolve_rejects_idle_bus_patterns() {
    assert!(matches!(
        resolve_chip([0xFF, 0xFF, 0xFF]),
        Err(Ch347Error::DeviceNotFound)
    ));
    assert!(matches!(
        resolve_chip([0x00, 0x00, 0x00]),
        Err(Ch347Error::DeviceNotFound)
    ));
    assert!(jedec_id_rejected(&[0xFF, 0xFF, 0xFF]));
    assert!(jedec_id_rejected(&[0x00, 0x00, 0x00]));
    assert!(!jedec_id_rejected(&[0xEF, 0x40, 0x17]));
}

#[test]
fn resolve_finds_known_part() {
    let chip = resolve_chip([0xEF, 0x40, 0x17]).unwrap();
    assert_eq!(chip.name, "W25Q64");
    assert_eq!(chip.size, 8 * 1024 * 1024);
}

#[test]
fn resolve_synthesizes_unknown_part() {
    let chip = resolve_chip([0x11, 0x22, 0x18]).unwrap();
    assert_eq!(chip.name, "Unknown (112218)");
    assert_eq!(chip.manufacturer, "Unknown");
    assert_eq!(chip.size, 16 * 1024 * 1024); // density byte 0x18
    assert_eq!(chip.page_size, 256);
    assert_eq!(chip.sector_size, 4096);
    assert_eq!(chip.block_size, 65536);
}

#[test]
fn unknown_chip_density_table() {
    assert_eq!(unknown_chip([0, 1, 0x14]).size, 1 * 1024 * 1024);
    assert_eq!(unknown_chip([0, 1, 0x15]).size, 2 * 1024 * 1024);
    assert_eq!(unknown_chip([0, 1, 0x16]).size, 4 * 1024 * 1024);
    assert_eq!(unknown_chip([0, 1, 0x17]).size, 8 * 1024 * 1024);
    assert_eq!(unknown_chip([0, 1, 0x18]).size, 16 * 1024 * 1024);
    assert_eq!(unknown_chip([0, 1, 0x19]).size, 32 * 1024 * 1024);
    assert_eq!(unknown_chip([0, 1, 0x1A]).size, 64 * 1024 * 1024);
    assert_eq!(unknown_chip([0, 1, 0x20]).size, 64 * 1024 * 1024);
    assert_eq!(unknown_chip([0, 1, 0x21]).size, 128 * 1024 * 1024);
    // unlisted density bytes default to 16 MiB
    assert_eq!(unknown_chip([0, 1, 0x42]).size, 16 * 1024 * 1024);
    assert_eq!(unknown_chip([0xAB, 0xCD, 0x42]).name, "Unknown (ABCD42)");
}

#[test]
fn poll_ready_the_instant_wip_clears() {
    // WIP clear: ready whatever the clock says
    assert_eq!(poll_decision(0x00, 0, 100), PollDecision::Ready);
    assert_eq!(poll_decision(0x02, 999999, 100), PollDecision::Ready);
    // WIP set within budget: poll again
    assert_eq!(poll_decision(0x01, 100, 100), PollDecision::Again);
    assert_eq!(poll_decision(0x03, 0, 100), PollDecision::Again);
    // WIP set past the budget: timeout
    assert_eq!(poll_decision(0x01, 101, 100), PollDecision::TimedOut);
}

#[test]
fn poll_sequence_with_mock_status_and_clock() {
    // a mock status register whose WIP bit clears on the third poll, with a
    // synthetic clock ticking one millisecond per poll
    let statuses = [0x01u8, 0x01, 0x00, 0x00];
    let mut outcome = None;
    for (ms, status) in statuses.iter().enumerate() {
        match poll_decision(*status, ms as u64, 10) {
            PollDecision::Ready => {
                outcome = Some(ms);
                break;
            }
            PollDecision::TimedOut => panic!("should not time out"),
            PollDecision::Again => {}
        }
    }
    assert_eq!(outcome, Some(2));

    // WIP never clears: the first poll past the budget times out
    let mut timed_out_at = None;
    for ms in 0..1000u64 {
        match poll_decision(STATUS_WIP, ms, 10) {
            PollDecision::Ready => panic!("WIP never clears"),
            PollDecision::TimedOut => {
                timed_out_at = Some(ms);
                break;
            }
            PollDecision::Again => {}
        }
    }
    assert_eq!(timed_out_at, Some(11));
}

#[test]
fn page_chunks_never_cross_page_boundaries() {
    // splitting a 600-byte write starting at address 5 over 256-byte pages
    let page = 256usize;
    let mut addr = 5u32;
    let mut remaining = 600usize;
    let mut chunks = Vec::new();
    while remaining > 0 {
        let k = page_chunk_len(addr, page, remaining);
        assert!(k >= 1);
        assert!((addr as usize % page) + k <= page);
        chunks.push(k);
        addr += k as u32;
        remaining -= k;
    }
    assert_eq!(chunks, vec![251, 256, 93]);

    // whatever the starting address, no chunk crosses a page boundary
    for start in [0u32, 1, 17, 255, 256, 4095, 0xFFFF00] {
        let mut addr = start;
        let mut remaining = 1000usize;
        while remaining > 0 {
            let k = page_chunk_len(addr, page, remaining);
            assert!((addr as usize % page) + k <= page);
            addr += k as u32;
            remaining -= k;
        }
        assert_eq!(addr, start + 1000);
    }
}

#[test]
fn verify_chunks_compare_like_the_verifier() {
    // identical buffers: every 4096-byte chunk compares equal
    let a = vec![0x5Au8; 8192];
    let b = a.clone();
    let mut offset = 0;
    while offset < a.len() {
        let k = usize::min(4096, a.len() - offset);
        assert!(slices_equal(&a[offset..offset + k], &b[offset..offset + k]));
        offset += k;
    }

    // a difference at byte 5000 sits inside the second 4096-byte chunk: the
    // first chunk matches, the second reports the mismatch and no chunk after
    // it is examined
    let mut c = a.clone();
    c[5000] ^= 0xFF;
    let mut mismatch_chunk = None;
    let mut chunks_read = 0;
    let mut offset = 0;
    while offset < a.len() {
        let k = usize::min(4096, a.len() - offset);
        chunks_read += 1;
        if !slices_equal(&a[offset..offset + k], &c[offset..offset + k]) {
            mismatch_chunk = Some(offset / 4096);
            break;
        }
        offset += k;
    }
    assert_eq!(mismatch_chunk, Some(1));
    assert_eq!(chunks_read, 2);
}

#[test]
fn slices_equal_exact() {
    assert!(slices_equal(&[], &[]));
    assert!(slices_equal(&[1, 2, 3], &[1, 2, 3]));
    assert!(!slices_equal(&[1, 2, 3], &[1, 2]));
    assert!(!slices_equal(&[1, 2, 3], &[1, 2, 4]));
}

#[test]
fn addr24_commands_are_big_endian() {
    assert_eq!(make_addr24_cmd(0x20, 0x123456), vec![0x20, 0x12, 0x34, 0x56]);
    assert_eq!(make_addr24_cmd(0xD8, 0), vec![0xD8, 0, 0, 0]);
    assert_eq!(make_addr24_cmd(0x03, 0xFFFFFF), vec![0x03, 0xFF, 0xFF, 0xFF]);
}

#[test]
fn size_str_formats() {
    let mut chip = unknown_chip([0xEF, 0x40, 0x17]);
    assert_eq!(chip.size_str(), "8MB");
    chip.size = 2048;
    assert_eq!(chip.size_str(), "2KB");
    chip.size = 100;
    assert_eq!(chip.size_str(), "100B");
    chip.size = 128 * 1024 * 1024;
    assert_eq!(chip.size_str(), "128MB");
    chip.size = 1048575;
    assert_eq!(chip.size_str(), "1023KB");
    chip.size = 1023;
    assert_eq!(chip.size_str(), "1023B");
}

#[test]
fn duplicate_copies_every_field() {
    let chip = identify_chip(&[0xC8, 0x40, 0x18]).unwrap();
    let copy: FlashChip = chip.duplicate();
    assert_eq!(copy.name, chip.name);
    assert_eq!(copy.manufacturer, chip.manufacturer);
    assert_eq!(copy.jedec_id, chip.jedec_id);
    assert_eq!(copy.size, chip.size);
}
