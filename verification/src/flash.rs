//! Flash command layer: the standard SPI-NOR command set (identification,
//! status, erase, program, read, verify) built on the SPI protocol engine's
//! composite transfer, with ready-polling and page-boundary-aware chunking,
//! and the registry of known flash parts.

use vstd::prelude::*;
use vstd::slice::slice_subrange;

use crate::ch347::{
    is_transfer_trace, is_write_trace, lemma_has_transfer_extend, lemma_has_transfer_widen,
    lemma_prefix_segment, lemma_prefix_trans, lemma_reply_events_widen, reply_events_in,
    trace_has_transfer, trace_has_write, Ch347Device, Ch347Error, UsbEvent,
};
use crate::packets::{config_packet, SpiClock};
use crate::text::{dec_rep, hex_byte, push_dec, push_hex_byte};

verus! {

/// Read the JEDEC identifier.
pub const CMD_READ_JEDEC_ID: u8 = 0x9F;

/// Read the status register.
pub const CMD_READ_STATUS: u8 = 0x05;

/// Read the second status register.
pub const CMD_READ_STATUS2: u8 = 0x35;

/// Set the write-enable latch.
pub const CMD_WRITE_ENABLE: u8 = 0x06;

/// Clear the write-enable latch.
pub const CMD_WRITE_DISABLE: u8 = 0x04;

/// Program one page.
pub const CMD_PAGE_PROGRAM: u8 = 0x02;

/// Read data.
pub const CMD_READ_DATA: u8 = 0x03;

/// Read data at higher clock rates.
pub const CMD_FAST_READ: u8 = 0x0B;

/// Erase one 4 KiB sector.
pub const CMD_SECTOR_ERASE: u8 = 0x20;

/// Erase one 32 KiB block.
pub const CMD_BLOCK_ERASE_32K: u8 = 0x52;

/// Erase one 64 KiB block.
pub const CMD_BLOCK_ERASE_64K: u8 = 0xD8;

/// Erase the whole chip.
pub const CMD_CHIP_ERASE: u8 = 0xC7;

/// Enter power-down.
pub const CMD_POWER_DOWN: u8 = 0xB9;

/// Leave power-down.
pub const CMD_RELEASE_PD: u8 = 0xAB;

/// Status bit: write in progress.
pub const STATUS_WIP: u8 = 0x01;

/// Status bit: write-enable latch.
pub const STATUS_WEL: u8 = 0x02;

/// Identity and addressing layout of one flash part.
#[derive(Debug, Clone)]
pub struct FlashChip {
    pub name: String,
    pub manufacturer: String,
    pub jedec_id: [u8; 3],
    /// Total size in bytes.
    pub size: usize,
    /// Program unit, usually 256 bytes.
    pub page_size: usize,
    /// Smallest erase unit, usually 4096 bytes.
    pub sector_size: usize,
    /// Large erase unit, usually 65536 bytes.
    pub block_size: usize,
}

/// The geometry invariant of a flash record: the units are positive and the
/// total size is a whole number of sectors.
pub open spec fn chip_wf(c: FlashChip) -> bool {
    &&& c.page_size > 0
    &&& c.sector_size > 0
    &&& c.block_size > 0
    &&& c.size > 0
    &&& c.size % c.sector_size == 0
}

/// The capacity a JEDEC density byte stands for, with the fallback for
/// density codes not in the table.
pub open spec fn spec_density_size(density: u8) -> usize {
    if density == 0x14 {
        1048576
    } else if density == 0x15 {
        2097152
    } else if density == 0x16 {
        4194304
    } else if density == 0x17 {
        8388608
    } else if density == 0x18 {
        16777216
    } else if density == 0x19 {
        33554432
    } else if density == 0x1A {
        67108864
    } else if density == 0x20 {
        67108864
    } else if density == 0x21 {
        134217728
    } else {
        16777216
    }
}

/// The JEDEC identifiers of the parts in the registry, in registry order.
/// No identifier appears twice.
pub open spec fn spec_known_ids() -> Seq<(u8, u8, u8)> {
    seq![
        (0xEFu8, 0x40u8, 0x15u8),
        (0xEFu8, 0x40u8, 0x16u8),
        (0xEFu8, 0x40u8, 0x17u8),
        (0xEFu8, 0x40u8, 0x18u8),
        (0xEFu8, 0x40u8, 0x19u8),
        (0xC8u8, 0x40u8, 0x15u8),
        (0xC8u8, 0x40u8, 0x16u8),
        (0xC8u8, 0x40u8, 0x17u8),
        (0xC8u8, 0x40u8, 0x18u8),
        (0xC2u8, 0x20u8, 0x17u8),
        (0xC2u8, 0x20u8, 0x18u8),
        (0xC2u8, 0x20u8, 0x19u8),
        (0x01u8, 0x20u8, 0x18u8),
        (0x9Du8, 0x60u8, 0x18u8),
        (0x20u8, 0x70u8, 0x18u8),
        (0x8Cu8, 0x21u8, 0x15u8),
    ]
}

/// Whether an identifier is in the registry.
pub open spec fn known_id(id: [u8; 3]) -> bool {
    spec_known_ids().contains((id[0], id[1], id[2]))
}

/// No identifier appears twice in the registry, so an exact-match lookup has
/// at most one hit.
#[verifier::rlimit(100)]
pub proof fn lemma_known_ids_distinct()
    ensures
        forall|i: int, j: int|
            0 <= i < spec_known_ids().len() && 0 <= j < spec_known_ids().len() && i != j
                ==> spec_known_ids()[i] != spec_known_ids()[j],
{
}

/// The display names and manufacturers of the registry parts, in registry
/// order.
pub open spec fn spec_known_parts() -> Seq<(Seq<char>, Seq<char>)> {
    seq![
        ("W25Q16"@, "Winbond"@),
        ("W25Q32"@, "Winbond"@),
        ("W25Q64"@, "Winbond"@),
        ("W25Q128"@, "Winbond"@),
        ("W25Q256"@, "Winbond"@),
        ("GD25Q16"@, "GigaDevice"@),
        ("GD25Q32"@, "GigaDevice"@),
        ("GD25Q64"@, "GigaDevice"@),
        ("GD25Q128"@, "GigaDevice"@),
        ("MX25L6405"@, "Macronix"@),
        ("MX25L12835F"@, "Macronix"@),
        ("MX25L25635F"@, "Macronix"@),
        ("S25FL128S"@, "Spansion"@),
        ("IS25LP128"@, "ISSI"@),
        ("XM25QH128A"@, "XMC"@),
        ("F25L16PA"@, "ESMT"@),
    ]
}

/// Three identifier bytes as a byte sequence.
pub open spec fn id_bytes(i0: u8, i1: u8, i2: u8) -> Seq<u8> {
    seq![i0, i1, i2]
}

/// An identifier of all 0xFF or all 0x00 bytes: both patterns mean no device
/// is answering (bus idle), not a part identity.
pub open spec fn spec_id_rejected(id: [u8; 3]) -> bool {
    ||| (id[0] == 0xFF && id[1] == 0xFF && id[2] == 0xFF)
    ||| (id[0] == 0x00 && id[1] == 0x00 && id[2] == 0x00)
}

/// The display name a part outside the registry gets.
pub open spec fn spec_unknown_name(id: [u8; 3]) -> Seq<char> {
    "Unknown ("@ + hex_byte(id[0]) + hex_byte(id[1]) + hex_byte(id[2]) + ")"@
}

impl FlashChip {
    /// The size, written as whole mebibytes, kibibytes or bytes.
    pub fn size_str(&self) -> (r: String)
        ensures
            r@ == spec_size_str(self.size as nat),
    {
        let mut s = String::new();
        if self.size >= 1048576 {
            push_dec(self.size / 1048576, &mut s);
            s.push_str("MB");
        } else if self.size >= 1024 {
            push_dec(self.size / 1024, &mut s);
            s.push_str("KB");
        } else {
            push_dec(self.size, &mut s);
            s.push_str("B");
        }
        proof {
            assert(Seq::<char>::empty() + dec_rep((self.size / 1048576) as nat) =~= dec_rep(
                (self.size / 1048576) as nat,
            ));
            assert(Seq::<char>::empty() + dec_rep((self.size / 1024) as nat) =~= dec_rep(
                (self.size / 1024) as nat,
            ));
            assert(Seq::<char>::empty() + dec_rep(self.size as nat) =~= dec_rep(self.size as nat));
        }
        s
    }

    /// An equal copy of the record.
    pub fn duplicate(&self) -> (r: FlashChip)
        ensures
            r == *self,
    {
        FlashChip {
            name: self.name.clone(),
            manufacturer: self.manufacturer.clone(),
            jedec_id: self.jedec_id,
            size: self.size,
            page_size: self.page_size,
            sector_size: self.sector_size,
            block_size: self.block_size,
        }
    }
}

/// The size as written by `size_str`.
pub open spec fn spec_size_str(size: nat) -> Seq<char> {
    if size >= 1048576 {
        dec_rep(size / 1048576) + "MB"@
    } else if size >= 1024 {
        dec_rep(size / 1024) + "KB"@
    } else {
        dec_rep(size) + "B"@
    }
}

/// The registry of known flash parts: for each entry the identifier matches
/// `spec_known_ids` in order, the geometry is the standard 256-byte page,
/// 4 KiB sector and 64 KiB block, and the size is the one its density byte
/// stands for.
#[verifier::rlimit(100)]
pub fn get_flash_database() -> (r: Vec<FlashChip>)
    ensures
        r@.len() == spec_known_ids().len(),
        forall|i: int|
            0 <= i < r@.len() ==> {
                let c = #[trigger] r@[i];
                &&& (c.jedec_id[0], c.jedec_id[1], c.jedec_id[2]) == spec_known_ids()[i]
                &&& c.name@ == spec_known_parts()[i].0
                &&& c.manufacturer@ == spec_known_parts()[i].1
                &&& c.page_size == 256
                &&& c.sector_size == 4096
                &&& c.block_size == 65536
                &&& c.size == spec_density_size(c.jedec_id[2])
                &&& chip_wf(c)
            },
{
    let mut v: Vec<FlashChip> = Vec::new();
    v.push(
        FlashChip {
            name: "W25Q16".to_owned(),
            manufacturer: "Winbond".to_owned(),
            jedec_id: [0xEF, 0x40, 0x15],
            size: 2097152,
            page_size: 256,
            sector_size: 4096,
            block_size: 65536,
        },
    );
    v.push(
        FlashChip {
            name: "W25Q32".to_owned(),
            manufacturer: "Winbond".to_owned(),
            jedec_id: [0xEF, 0x40, 0x16],
            size: 4194304,
            page_size: 256,
            sector_size: 4096,
            block_size: 65536,
        },
    );
    v.push(
        FlashChip {
            name: "W25Q64".to_owned(),
            manufacturer: "Winbond".to_owned(),
            jedec_id: [0xEF, 0x40, 0x17],
            size: 8388608,
            page_size: 256,
            sector_size: 4096,
            block_size: 65536,
        },
    );
    v.push(
        FlashChip {
            name: "W25Q128".to_owned(),
            manufacturer: "Winbond".to_owned(),
            jedec_id: [0xEF, 0x40, 0x18],
            size: 16777216,
            page_size: 256,
            sector_size: 4096,
            block_size: 65536,
        },
    );
    v.push(
        FlashChip {
            name: "W25Q256".to_owned(),
            manufacturer: "Winbond".to_owned(),
            jedec_id: [0xEF, 0x40, 0x19],
            size: 33554432,
            page_size: 256,
            sector_size: 4096,
            block_size: 65536,
        },
    );
    v.push(
        FlashChip {
            name: "GD25Q16".to_owned(),
            manufacturer: "GigaDevice".to_owned(),
            jedec_id: [0xC8, 0x40, 0x15],
            size: 2097152,
            page_size: 256,
            sector_size: 4096,
            block_size: 65536,
        },
    );
    v.push(
        FlashChip {
            name: "GD25Q32".to_owned(),
            manufacturer: "GigaDevice".to_owned(),
            jedec_id: [0xC8, 0x40, 0x16],
            size: 4194304,
            page_size: 256,
            sector_size: 4096,
            block_size: 65536,
        },
    );
    v.push(
        FlashChip {
            name: "GD25Q64".to_owned(),
            manufacturer: "GigaDevice".to_owned(),
            jedec_id: [0xC8, 0x40, 0x17],
            size: 8388608,
            page_size: 256,
            sector_size: 4096,
            block_size: 65536,
        },
    );
    v.push(
        FlashChip {
            name: "GD25Q128".to_owned(),
            manufacturer: "GigaDevice".to_owned(),
            jedec_id: [0xC8, 0x40, 0x18],
            size: 16777216,
            page_size: 256,
            sector_size: 4096,
            block_size: 65536,
        },
    );
    v.push(
        FlashChip {
            name: "MX25L6405".to_owned(),
            manufacturer: "Macronix".to_owned(),
            jedec_id: [0xC2, 0x20, 0x17],
            size: 8388608,
            page_size: 256,
            sector_size: 4096,
            block_size: 65536,
        },
    );
    v.push(
        FlashChip {
            name: "MX25L12835F".to_owned(),
            manufacturer: "Macronix".to_owned(),
            jedec_id: [0xC2, 0x20, 0x18],
            size: 16777216,
            page_size: 256,
            sector_size: 4096,
            block_size: 65536,
        },
    );
    v.push(
        FlashChip {
            name: "MX25L25635F".to_owned(),
            manufacturer: "Macronix".to_owned(),
            jedec_id: [0xC2, 0x20, 0x19],
            size: 33554432,
            page_size: 256,
            sector_size: 4096,
            block_size: 65536,
        },
    );
    v.push(
        FlashChip {
            name: "S25FL128S".to_owned(),
            manufacturer: "Spansion".to_owned(),
            jedec_id: [0x01, 0x20, 0x18],
            size: 16777216,
            page_size: 256,
            sector_size: 4096,
            block_size: 65536,
        },
    );
    v.push(
        FlashChip {
            name: "IS25LP128".to_owned(),
            manufacturer: "ISSI".to_owned(),
            jedec_id: [0x9D, 0x60, 0x18],
            size: 16777216,
            page_size: 256,
            sector_size: 4096,
            block_size: 65536,
        },
    );
    v.push(
        FlashChip {
            name: "XM25QH128A".to_owned(),
            manufacturer: "XMC".to_owned(),
            jedec_id: [0x20, 0x70, 0x18],
            size: 16777216,
            page_size: 256,
            sector_size: 4096,
            block_size: 65536,
        },
    );
    v.push(
        FlashChip {
            name: "F25L16PA".to_owned(),
            manufacturer: "ESMT".to_owned(),
            jedec_id: [0x8C, 0x21, 0x15],
            size: 2097152,
            page_size: 256,
            sector_size: 4096,
            block_size: 65536,
        },
    );
    proof {
        assert forall|i: int| 0 <= i < v@.len() implies {
            let c = #[trigger] v@[i];
            &&& (c.jedec_id[0], c.jedec_id[1], c.jedec_id[2]) == spec_known_ids()[i]
            &&& c.name@ == spec_known_parts()[i].0
            &&& c.manufacturer@ == spec_known_parts()[i].1
            &&& c.page_size == 256
            &&& c.sector_size == 4096
            &&& c.block_size == 65536
            &&& c.size == spec_density_size(c.jedec_id[2])
            &&& chip_wf(c)
        } by {
            if i == 0 {
                assert(v@[0].jedec_id[0] == 0xEF && v@[0].jedec_id[1] == 0x40 && v@[0].jedec_id[2]
                    == 0x15 && v@[0].size == 2097152 && v@[0].page_size == 256
                    && v@[0].sector_size == 4096 && v@[0].block_size == 65536);
                assert(v@[0].name@ == "W25Q16"@ && v@[0].manufacturer@ == "Winbond"@);
            } else if i == 1 {
                assert(v@[1].jedec_id[0] == 0xEF && v@[1].jedec_id[1] == 0x40 && v@[1].jedec_id[2]
                    == 0x16 && v@[1].size == 4194304 && v@[1].page_size == 256
                    && v@[1].sector_size == 4096 && v@[1].block_size == 65536);
                assert(v@[1].name@ == "W25Q32"@ && v@[1].manufacturer@ == "Winbond"@);
            } else if i == 2 {
                assert(v@[2].jedec_id[0] == 0xEF && v@[2].jedec_id[1] == 0x40 && v@[2].jedec_id[2]
                    == 0x17 && v@[2].size == 8388608 && v@[2].page_size == 256
                    && v@[2].sector_size == 4096 && v@[2].block_size == 65536);
                assert(v@[2].name@ == "W25Q64"@ && v@[2].manufacturer@ == "Winbond"@);
            } else if i == 3 {
                assert(v@[3].jedec_id[0] == 0xEF && v@[3].jedec_id[1] == 0x40 && v@[3].jedec_id[2]
                    == 0x18 && v@[3].size == 16777216 && v@[3].page_size == 256
                    && v@[3].sector_size == 4096 && v@[3].block_size == 65536);
                assert(v@[3].name@ == "W25Q128"@ && v@[3].manufacturer@ == "Winbond"@);
            } else if i == 4 {
                assert(v@[4].jedec_id[0] == 0xEF && v@[4].jedec_id[1] == 0x40 && v@[4].jedec_id[2]
                    == 0x19 && v@[4].size == 33554432 && v@[4].page_size == 256
                    && v@[4].sector_size == 4096 && v@[4].block_size == 65536);
                assert(v@[4].name@ == "W25Q256"@ && v@[4].manufacturer@ == "Winbond"@);
            } else if i == 5 {
                assert(v@[5].jedec_id[0] == 0xC8 && v@[5].jedec_id[1] == 0x40 && v@[5].jedec_id[2]
                    == 0x15 && v@[5].size == 2097152 && v@[5].page_size == 256
                    && v@[5].sector_size == 4096 && v@[5].block_size == 65536);
                assert(v@[5].name@ == "GD25Q16"@ && v@[5].manufacturer@ == "GigaDevice"@);
            } else if i == 6 {
                assert(v@[6].jedec_id[0] == 0xC8 && v@[6].jedec_id[1] == 0x40 && v@[6].jedec_id[2]
                    == 0x16 && v@[6].size == 4194304 && v@[6].page_size == 256
                    && v@[6].sector_size == 4096 && v@[6].block_size == 65536);
                assert(v@[6].name@ == "GD25Q32"@ && v@[6].manufacturer@ == "GigaDevice"@);
            } else if i == 7 {
                assert(v@[7].jedec_id[0] == 0xC8 && v@[7].jedec_id[1] == 0x40 && v@[7].jedec_id[2]
                    == 0x17 && v@[7].size == 8388608 && v@[7].page_size == 256
                    && v@[7].sector_size == 4096 && v@[7].block_size == 65536);
                assert(v@[7].name@ == "GD25Q64"@ && v@[7].manufacturer@ == "GigaDevice"@);
            } else if i == 8 {
                assert(v@[8].jedec_id[0] == 0xC8 && v@[8].jedec_id[1] == 0x40 && v@[8].jedec_id[2]
                    == 0x18 && v@[8].size == 16777216 && v@[8].page_size == 256
                    && v@[8].sector_size == 4096 && v@[8].block_size == 65536);
                assert(v@[8].name@ == "GD25Q128"@ && v@[8].manufacturer@ == "GigaDevice"@);
            } else if i == 9 {
                assert(v@[9].jedec_id[0] == 0xC2 && v@[9].jedec_id[1] == 0x20 && v@[9].jedec_id[2]
                    == 0x17 && v@[9].size == 8388608 && v@[9].page_size == 256
                    && v@[9].sector_size == 4096 && v@[9].block_size == 65536);
                assert(v@[9].name@ == "MX25L6405"@ && v@[9].manufacturer@ == "Macronix"@);
            } else if i == 10 {
                assert(v@[10].jedec_id[0] == 0xC2 && v@[10].jedec_id[1] == 0x20 && v@[10].jedec_id[2]
                    == 0x18 && v@[10].size == 16777216 && v@[10].page_size == 256
                    && v@[10].sector_size == 4096 && v@[10].block_size == 65536);
                assert(v@[10].name@ == "MX25L12835F"@ && v@[10].manufacturer@ == "Macronix"@);
            } else if i == 11 {
                assert(v@[11].jedec_id[0] == 0xC2 && v@[11].jedec_id[1] == 0x20 && v@[11].jedec_id[2]
                    == 0x19 && v@[11].size == 33554432 && v@[11].page_size == 256
                    && v@[11].sector_size == 4096 && v@[11].block_size == 65536);
                assert(v@[11].name@ == "MX25L25635F"@ && v@[11].manufacturer@ == "Macronix"@);
            } else if i == 12 {
                assert(v@[12].jedec_id[0] == 0x01 && v@[12].jedec_id[1] == 0x20 && v@[12].jedec_id[2]
                    == 0x18 && v@[12].size == 16777216 && v@[12].page_size == 256
                    && v@[12].sector_size == 4096 && v@[12].block_size == 65536);
                assert(v@[12].name@ == "S25FL128S"@ && v@[12].manufacturer@ == "Spansion"@);
            } else if i == 13 {
                assert(v@[13].jedec_id[0] == 0x9D && v@[13].jedec_id[1] == 0x60 && v@[13].jedec_id[2]
                    == 0x18 && v@[13].size == 16777216 && v@[13].page_size == 256
                    && v@[13].sector_size == 4096 && v@[13].block_size == 65536);
                assert(v@[13].name@ == "IS25LP128"@ && v@[13].manufacturer@ == "ISSI"@);
            } else if i == 14 {
                assert(v@[14].jedec_id[0] == 0x20 && v@[14].jedec_id[1] == 0x70 && v@[14].jedec_id[2]
                    == 0x18 && v@[14].size == 16777216 && v@[14].page_size == 256
                    && v@[14].sector_size == 4096 && v@[14].block_size == 65536);
                assert(v@[14].name@ == "XM25QH128A"@ && v@[14].manufacturer@ == "XMC"@);
            } else if i == 15 {
                assert(v@[15].jedec_id[0] == 0x8C && v@[15].jedec_id[1] == 0x21 && v@[15].jedec_id[2]
                    == 0x15 && v@[15].size == 2097152 && v@[15].page_size == 256
                    && v@[15].sector_size == 4096 && v@[15].block_size == 65536);
                assert(v@[15].name@ == "F25L16PA"@ && v@[15].manufacturer@ == "ESMT"@);
            }
        }
    }
    v
}

/// Look a part up by its JEDEC identifier: the registry record whose
/// identifier matches exactly, if the identifier is known.
pub fn identify_chip(jedec_id: &[u8; 3]) -> (r: Option<FlashChip>)
    ensures
        r is Some <==> known_id(*jedec_id),
        r matches Some(c) ==> {
            &&& (c.jedec_id[0], c.jedec_id[1], c.jedec_id[2]) == (jedec_id[0], jedec_id[1], jedec_id[2])
            &&& c.page_size == 256
            &&& c.sector_size == 4096
            &&& c.block_size == 65536
            &&& c.size == spec_density_size(jedec_id[2])
            &&& chip_wf(c)
        },
        r matches Some(c) ==> exists|k: int|
            #![trigger spec_known_ids()[k]]
            {
                &&& 0 <= k < spec_known_ids().len()
                &&& spec_known_ids()[k] == (jedec_id[0], jedec_id[1], jedec_id[2])
                &&& c.name@ == spec_known_parts()[k].0
                &&& c.manufacturer@ == spec_known_parts()[k].1
            },
{
    let db = get_flash_database();
    let target0 = jedec_id[0];
    let target1 = jedec_id[1];
    let target2 = jedec_id[2];
    let mut i: usize = 0;
    while i < db.len()
        invariant
            i <= db@.len(),
            db@.len() == spec_known_ids().len(),
            (target0, target1, target2) == (jedec_id[0], jedec_id[1], jedec_id[2]),
            forall|k: int|
                0 <= k < db@.len() ==> {
                    let c = #[trigger] db@[k];
                    &&& (c.jedec_id[0], c.jedec_id[1], c.jedec_id[2]) == spec_known_ids()[k]
                    &&& c.name@ == spec_known_parts()[k].0
                    &&& c.manufacturer@ == spec_known_parts()[k].1
                    &&& c.page_size == 256
                    &&& c.sector_size == 4096
                    &&& c.block_size == 65536
                    &&& c.size == spec_density_size(c.jedec_id[2])
                    &&& chip_wf(c)
                },
            forall|k: int|
                0 <= k < i ==> spec_known_ids()[k] != (jedec_id[0], jedec_id[1], jedec_id[2]),
        decreases db@.len() - i,
    {
        let hit = {
            let c = &db[i];
            c.jedec_id[0] == target0 && c.jedec_id[1] == target1 && c.jedec_id[2] == target2
        };
        if hit {
            let found = db[i].duplicate();
            proof {
                assert(spec_known_ids()[i as int] == (jedec_id[0], jedec_id[1], jedec_id[2]));
                assert(known_id(*jedec_id));
            }
            return Some(found);
        }
        i = i + 1;
    }
    proof {
        if known_id(*jedec_id) {
            let k = choose|k: int|
                0 <= k < spec_known_ids().len() && spec_known_ids()[k] == (
                    jedec_id[0],
                    jedec_id[1],
                    jedec_id[2],
                );
            assert(spec_known_ids()[k] != (jedec_id[0], jedec_id[1], jedec_id[2]));
        }
    }
    None
}

/// Synthesize a record for an identifier outside the registry: the standard
/// 256-byte page, 4 KiB sector and 64 KiB block, a capacity inferred from
/// the density byte, and a display name carrying the identifier in
/// hexadecimal.
pub fn unknown_chip(jedec_id: [u8; 3]) -> (r: FlashChip)
    ensures
        r.jedec_id == jedec_id,
        r.page_size == 256,
        r.sector_size == 4096,
        r.block_size == 65536,
        r.size == spec_density_size(jedec_id[2]),
        chip_wf(r),
        r.name@ == spec_unknown_name(jedec_id),
        r.manufacturer@ == "Unknown"@,
{
    let density = jedec_id[2];
    let size: usize = if density == 0x14 {
        1048576
    } else if density == 0x15 {
        2097152
    } else if density == 0x16 {
        4194304
    } else if density == 0x17 {
        8388608
    } else if density == 0x18 {
        16777216
    } else if density == 0x19 {
        33554432
    } else if density == 0x1A {
        67108864
    } else if density == 0x20 {
        67108864
    } else if density == 0x21 {
        134217728
    } else {
        16777216
    };
    let mut name = "Unknown (".to_owned();
    push_hex_byte(jedec_id[0], &mut name);
    push_hex_byte(jedec_id[1], &mut name);
    push_hex_byte(jedec_id[2], &mut name);
    name.push(')');
    proof {
        reveal_strlit(")");
        assert(")"@ =~= seq![')']);
        assert(name@ =~= spec_unknown_name(jedec_id));
    }
    FlashChip {
        name,
        manufacturer: "Unknown".to_owned(),
        jedec_id,
        size,
        page_size: 256,
        sector_size: 4096,
        block_size: 65536,
    }
}

/// Whether identifier bytes mean that no device is answering.
pub fn jedec_id_rejected(id: &[u8; 3]) -> (r: bool)
    ensures
        r == spec_id_rejected(*id),
{
    (id[0] == 0xFF && id[1] == 0xFF && id[2] == 0xFF) || (id[0] == 0x00 && id[1] == 0x00 && id[2]
        == 0x00)
}

/// Resolve identifier bytes read from the bus into a flash record: bytes that
/// mean an idle bus are rejected as no device found; a known identifier gets
/// its registry record, any other a synthesized one.
pub fn resolve_chip(jedec_id: [u8; 3]) -> (r: Result<FlashChip, Ch347Error>)
    ensures
        spec_id_rejected(jedec_id) <==> (r matches Err(Ch347Error::DeviceNotFound)),
        r is Err ==> (r matches Err(Ch347Error::DeviceNotFound)),
        r matches Ok(c) ==> {
            &&& (c.jedec_id[0], c.jedec_id[1], c.jedec_id[2]) == (jedec_id[0], jedec_id[1], jedec_id[2])
            &&& c.page_size == 256
            &&& c.sector_size == 4096
            &&& c.block_size == 65536
            &&& c.size == spec_density_size(jedec_id[2])
            &&& chip_wf(c)
        },
        r matches Ok(c) ==> known_id(jedec_id) ==> exists|k: int|
            #![trigger spec_known_ids()[k]]
            {
                &&& 0 <= k < spec_known_ids().len()
                &&& spec_known_ids()[k] == (jedec_id[0], jedec_id[1], jedec_id[2])
                &&& c.name@ == spec_known_parts()[k].0
                &&& c.manufacturer@ == spec_known_parts()[k].1
            },
        r matches Ok(c) ==> !known_id(jedec_id) ==> c.name@ == spec_unknown_name(jedec_id)
            && c.manufacturer@ == "Unknown"@,
{
    if jedec_id_rejected(&jedec_id) {
        return Err(Ch347Error::DeviceNotFound);
    }
    match identify_chip(&jedec_id) {
        Some(chip) => Ok(chip),
        None => Ok(unknown_chip(jedec_id)),
    }
}

/// What one status poll decides: the part is ready, the budget ran out, or
/// polling goes on.
#[derive(Debug, Clone, Copy, PartialEq, Eq, Structural)]
pub enum PollDecision {
    Ready,
    Again,
    TimedOut,
}

/// Decide one step of ready-polling from the status byte and the elapsed
/// time: ready the instant the write-in-progress bit is clear, whatever the
/// clock says; a timeout only once the elapsed time exceeds the budget while
/// the bit is still set; otherwise poll again.
pub fn poll_decision(status: u8, elapsed_ms: u64, timeout_ms: u64) -> (r: PollDecision)
    ensures
        status & STATUS_WIP == 0 ==> r == PollDecision::Ready,
        status & STATUS_WIP != 0 && elapsed_ms > timeout_ms ==> r == PollDecision::TimedOut,
        status & STATUS_WIP != 0 && elapsed_ms <= timeout_ms ==> r == PollDecision::Again,
{
    if status & STATUS_WIP == 0 {
        PollDecision::Ready
    } else if elapsed_ms > timeout_ms {
        PollDecision::TimedOut
    } else {
        PollDecision::Again
    }
}

/// The length of the next chunk of a paged write: what is left of the page
/// the address falls in, or the remaining payload if that is shorter.
pub open spec fn spec_page_chunk_len(address: int, page_size: int, remaining: int) -> int {
    let room = page_size - (address % page_size);
    if remaining < room {
        remaining
    } else {
        room
    }
}

/// Compute the next chunk of a paged write.
pub fn page_chunk_len(address: u32, page_size: usize, remaining: usize) -> (r: usize)
    requires
        page_size > 0,
        remaining > 0,
    ensures
        r == spec_page_chunk_len(address as int, page_size as int, remaining as int),
        1 <= r <= remaining,
        (address as int % page_size as int) + r <= page_size,
{
    let page_offset = (address as usize) % page_size;
    let room = page_size - page_offset;
    if remaining < room {
        remaining
    } else {
        room
    }
}

/// No chunk of a paged write crosses a page boundary: for every address,
/// page size and remaining length, the chunk starts at the address's offset
/// within its page and ends at or before the page's end, and it is never
/// empty, so the paged write always makes progress.
pub proof fn lemma_page_chunk_in_page(address: int, page_size: int, remaining: int)
    requires
        page_size > 0,
        remaining > 0,
    ensures
        (address % page_size) + spec_page_chunk_len(address, page_size, remaining) <= page_size,
        1 <= spec_page_chunk_len(address, page_size, remaining),
{
}

/// From `from` on, the trace holds one page-program transfer per chunk of a
/// paged write, in order: each chunk is what `spec_page_chunk_len` gives of
/// the remaining payload at the running address, and its transfer writes the
/// page-program command for that address followed by the chunk's bytes.
pub open spec fn paged_program_in(
    tr: Seq<UsbEvent>,
    from: int,
    address: int,
    data: Seq<u8>,
    page: int,
) -> bool
    decreases data.len()
        when page > 0
{
    ||| data.len() == 0
    ||| {
        let k = spec_page_chunk_len(address, page, data.len() as int);
        exists|upto: int|
            #![trigger tr.take(upto)]
            {
                &&& from <= upto <= tr.len()
                &&& trace_has_transfer(
                    tr.take(upto),
                    from,
                    addr24_cmd(CMD_PAGE_PROGRAM, address as u32) + data.take(k),
                    0,
                )
                &&& paged_program_in(tr, upto, address + k, data.skip(k), page)
            }
    }
}

/// A zero-filled byte sequence, the fresh chunk buffer a read starts from.
pub open spec fn zero_bytes(n: int) -> Seq<u8> {
    Seq::new(n as nat, |i: int| 0u8)
}

/// From `from` on, the trace holds the 256-byte sub-chunk reads that filled
/// `dest` from position `pos` on: one read phase per sub-chunk, in order,
/// each assembling a zero-filled chunk buffer into the matching slice of
/// `dest`.
pub open spec fn sub_reads_in(tr: Seq<UsbEvent>, from: int, dest: Seq<u8>, pos: int) -> bool
    decreases (if pos >= dest.len() {
        0int
    } else {
        dest.len() - pos
    }),
{
    if pos >= dest.len() {
        true
    } else {
        let k: int = if dest.len() - pos < 256 {
            dest.len() - pos
        } else {
            256
        };
        exists|upto: int|
            #![trigger tr.take(upto)]
            {
                &&& from <= upto <= tr.len()
                &&& reply_events_in(tr.take(upto), from, zero_bytes(k), dest.subrange(pos, pos + k))
                &&& sub_reads_in(tr, upto, dest, pos + k)
            }
    }
}

/// Sub-chunk reads in a trace still stand in any extension of it.
pub proof fn lemma_sub_reads_extend(
    tr1: Seq<UsbEvent>,
    tr2: Seq<UsbEvent>,
    from: int,
    dest: Seq<u8>,
    pos: int,
)
    requires
        0 <= from,
        sub_reads_in(tr1, from, dest, pos),
        tr1.is_prefix_of(tr2),
    ensures
        sub_reads_in(tr2, from, dest, pos),
    decreases (if pos >= dest.len() {
        0int
    } else {
        dest.len() - pos
    }),
{
    if pos < dest.len() {
        let k: int = if dest.len() - pos < 256 {
            dest.len() - pos
        } else {
            256
        };
        assert forall|upto: int|
            from <= upto <= tr1.len() && reply_events_in(
                #[trigger] tr1.take(upto),
                from,
                zero_bytes(k),
                dest.subrange(pos, pos + k),
            ) && sub_reads_in(tr1, upto, dest, pos + k) implies from <= upto <= tr2.len()
            && reply_events_in(tr2.take(upto), from, zero_bytes(k), dest.subrange(pos, pos + k))
            && sub_reads_in(tr2, upto, dest, pos + k) by {
            assert forall|m: int| #![trigger tr2.take(upto)[m]] 0 <= m < upto implies tr2.take(
                upto,
            )[m] == tr1.take(upto)[m] by {
                assert(tr1[m] == tr2.subrange(0, tr1.len() as int)[m]);
            }
            assert(tr2.take(upto) =~= tr1.take(upto));
            lemma_sub_reads_extend(tr1, tr2, upto, dest, pos + k);
        }
    }
}

/// Sub-chunk reads found after `from2` are also found after any earlier
/// `from`.
pub proof fn lemma_sub_reads_widen_from(
    tr: Seq<UsbEvent>,
    from: int,
    from2: int,
    dest: Seq<u8>,
    pos: int,
)
    requires
        sub_reads_in(tr, from2, dest, pos),
        from <= from2,
    ensures
        sub_reads_in(tr, from, dest, pos),
{
    if pos < dest.len() {
        let k: int = if dest.len() - pos < 256 {
            dest.len() - pos
        } else {
            256
        };
        assert forall|upto: int|
            from2 <= upto <= tr.len() && reply_events_in(
                #[trigger] tr.take(upto),
                from2,
                zero_bytes(k),
                dest.subrange(pos, pos + k),
            ) && sub_reads_in(tr, upto, dest, pos + k) implies from <= upto <= tr.len()
            && reply_events_in(tr.take(upto), from, zero_bytes(k), dest.subrange(pos, pos + k))
            && sub_reads_in(tr, upto, dest, pos + k) by {
            lemma_reply_events_widen(
                tr.take(upto),
                from,
                from2,
                zero_bytes(k),
                dest.subrange(pos, pos + k),
            );
        }
    }
}

/// From `from` on, the trace holds the 4 KiB chunk reads of one verification
/// run over `data` from `offset` on, with outcome `r`: each chunk is read
/// back in full; a chunk equal to the matching slice of `data` lets the run
/// go on; the first mismatching chunk ends the run with a false outcome and
/// no chunk is read after it; a run that matches every chunk ends true.
pub open spec fn verify_outcome(
    tr: Seq<UsbEvent>,
    from: int,
    data: Seq<u8>,
    offset: int,
    r: bool,
) -> bool
    decreases (if offset >= data.len() {
        0int
    } else {
        data.len() - offset
    }),
{
    if offset >= data.len() {
        r == true
    } else {
        let k: int = if data.len() - offset < 4096 {
            data.len() - offset
        } else {
            4096
        };
        exists|upto: int, got: Seq<u8>|
            #![trigger sub_reads_in(tr.take(upto), from, got, 0)]
            {
                &&& from <= upto <= tr.len()
                &&& got.len() == k
                &&& sub_reads_in(tr.take(upto), from, got, 0)
                &&& if got == data.subrange(offset, offset + k) {
                    verify_outcome(tr, upto, data, offset + k, r)
                } else {
                    r == false && upto == tr.len()
                }
            }
    }
}

/// Compare two byte slices for equality.
pub fn slices_equal(a: &[u8], b: &[u8]) -> (r: bool)
    ensures
        r <==> a@ == b@,
{
    if a.len() != b.len() {
        return false;
    }
    let n = a.len();
    let mut i: usize = 0;
    while i < n
        invariant
            i <= n,
            n == a@.len(),
            a@.len() == b@.len(),
            forall|k: int| 0 <= k < i ==> a@[k] == b@[k],
        decreases n - i,
    {
        if a[i] != b[i] {
            return false;
        }
        i = i + 1;
    }
    proof {
        assert(a@ =~= b@);
    }
    true
}

/// A flash command: the opcode followed by a 24-bit big-endian address.
pub open spec fn addr24_cmd(opcode: u8, address: u32) -> Seq<u8> {
    seq![
        opcode,
        ((address / 65536) % 256) as u8,
        ((address / 256) % 256) as u8,
        (address % 256) as u8,
    ]
}

/// Build a flash command carrying a 24-bit big-endian address.
pub fn make_addr24_cmd(opcode: u8, address: u32) -> (cmd: Vec<u8>)
    ensures
        cmd@ == addr24_cmd(opcode, address),
        cmd@.len() == 4,
{
    let mut cmd: Vec<u8> = Vec::new();
    cmd.push(opcode);
    cmd.push(((address / 65536) % 256) as u8);
    cmd.push(((address / 256) % 256) as u8);
    cmd.push((address % 256) as u8);
    proof {
        assert(cmd@ =~= addr24_cmd(opcode, address));
    }
    cmd
}

#[verifier::external_type_specification]
#[verifier::external_body]
pub struct ExInstant(std::time::Instant);

/// Relies on std::time::Instant::now: the current monotonic instant.
#[verifier::external_body]
fn instant_now() -> (r: std::time::Instant) {
    std::time::Instant::now()
}

/// Relies on std::time::Instant::elapsed: the time since the instant.
#[verifier::external_body]
fn instant_elapsed(start: &std::time::Instant) -> (r: std::time::Duration) {
    start.elapsed()
}

/// Relies on std::time::Duration::as_millis: the whole milliseconds of the
/// duration, here truncated into 64 bits.
#[verifier::external_body]
fn duration_millis(d: &std::time::Duration) -> (r: u64) {
    d.as_millis() as u64
}

/// The trace from `from` on holds one complete status read whose one-byte
/// reply is `b`: the read-status transfer, with the response packets
/// assembling `b`.
pub open spec fn status_read_in(tr: Seq<UsbEvent>, from: int, b: u8) -> bool {
    &&& trace_has_transfer(tr, from, seq![CMD_READ_STATUS], 1)
    &&& reply_events_in(tr, from, seq![0u8], seq![b])
}

/// A status read found after `from2` is also found after any earlier `from`.
pub proof fn lemma_status_read_widen(tr: Seq<UsbEvent>, from: int, from2: int, b: u8)
    requires
        status_read_in(tr, from2, b),
        from <= from2,
    ensures
        status_read_in(tr, from, b),
{
    lemma_has_transfer_widen(tr, from, from2, seq![CMD_READ_STATUS], 1);
    lemma_reply_events_widen(tr, from, from2, seq![0u8], seq![b]);
}

/// Relies on parking_lot::Condvar::wait_for on a lock nothing else holds and
/// a condition variable nothing ever notifies: blocks the calling thread for
/// the given number of milliseconds, pacing the ready-polling loop.
#[verifier::external_body]
fn pause_millis(ms: u64) {
    let lock = parking_lot::Mutex::new(());
    let mut guard = lock.lock();
    let _ = parking_lot::Condvar::new().wait_for(
        &mut guard,
        std::time::Duration::from_millis(ms),
    );
}

/// The programmer: an opened, configured bridge plus the detected flash
/// record once `detect` has run. It owns the device exclusively for its
/// lifetime; operations that need geometry fall back to the standard page
/// size while no part has been detected.
pub struct FlashProgrammer {
    device: Ch347Device,
    chip: Option<FlashChip>,
}

impl FlashProgrammer {
    /// Whether the SPI session has been configured.
    pub closed spec fn initialized(&self) -> bool {
        self.device.initialized()
    }

    /// The bulk transfers attempted so far, in order.
    pub closed spec fn trace(&self) -> Seq<UsbEvent> {
        self.device.trace()
    }

    /// The detected flash record, if any.
    pub closed spec fn chip_spec(&self) -> Option<FlashChip> {
        self.chip
    }

    /// A detected record always satisfies the geometry invariant.
    pub open spec fn inv(&self) -> bool {
        self.chip_spec() matches Some(c) ==> chip_wf(c)
    }

    /// Open a bridge and configure the SPI session at the default 15 MHz
    /// clock. No transfer may happen before this succeeds.
    pub fn new() -> (r: Result<FlashProgrammer, Ch347Error>)
        ensures
            r matches Ok(p) ==> p.initialized() && p.chip_spec() is None && p.inv(),
            r matches Ok(p) ==> p.trace().len() == 2 && p.trace()[0] == (UsbEvent::Out {
                sent: config_packet(SpiClock::Clk15MHz),
            }) && p.trace()[1] is In,
    {
        let mut device = match Ch347Device::open() {
            Ok(d) => d,
            Err(e) => { return Err(e); },
        };
        match device.spi_init(SpiClock::Clk15MHz) {
            Ok(_) => Ok(FlashProgrammer { device, chip: None }),
            Err(e) => Err(e),
        }
    }

    /// Read the part's JEDEC identifier: issue the identification opcode under
    /// one CS assertion and read three bytes back. Identifier bytes of all
    /// 0xFF or all 0x00 mean no device is answering and are rejected.
    pub fn read_jedec_id(&mut self) -> (r: Result<[u8; 3], Ch347Error>)
        ensures
            final(self).initialized() == old(self).initialized(),
            final(self).chip_spec() == old(self).chip_spec(),
            old(self).trace().is_prefix_of(final(self).trace()),
            r is Ok ==> old(self).initialized(),
            r matches Ok(id) ==> !spec_id_rejected(id),
            r is Ok ==> trace_has_transfer(
                final(self).trace(),
                old(self).trace().len() as int,
                seq![CMD_READ_JEDEC_ID],
                3,
            ),
            r matches Ok(id) ==> reply_events_in(
                final(self).trace(),
                old(self).trace().len() as int,
                seq![0u8, 0u8, 0u8],
                seq![id[0], id[1], id[2]],
            ),
            (r matches Err(Ch347Error::DeviceNotFound)) ==> exists|i0: u8, i1: u8, i2: u8|
                #![trigger id_bytes(i0, i1, i2)]
                {
                    &&& reply_events_in(
                        final(self).trace(),
                        old(self).trace().len() as int,
                        seq![0u8, 0u8, 0u8],
                        id_bytes(i0, i1, i2),
                    )
                    &&& ((i0 == 0xFF && i1 == 0xFF && i2 == 0xFF) || (i0 == 0x00 && i1 == 0x00
                        && i2 == 0x00))
                },
            r is Err ==> (r matches Err(Ch347Error::DeviceNotFound)) || (r matches Err(
                Ch347Error::Usb(_),
            )) || (r matches Err(Ch347Error::SpiNotInitialized)) || (r matches Err(
                Ch347Error::InvalidResponse,
            )),
    {
        let mut cmd: Vec<u8> = Vec::new();
        cmd.push(CMD_READ_JEDEC_ID);
        let mut resp: Vec<u8> = vec![0u8; 3];
        let ghost din = resp@;
        match self.device.spi_transfer(cmd.as_slice(), &mut resp) {
            Ok(_) => {},
            Err(e) => { return Err(e); },
        }
        proof {
            let from = old(self).trace().len() as int;
            let t2 = self.trace();
            assert(cmd@ =~= seq![CMD_READ_JEDEC_ID]);
            assert(t2.skip(from) =~= t2.subrange(from, t2.len() as int));
            assert(is_transfer_trace(seq![CMD_READ_JEDEC_ID], 3, t2.subrange(from, t2.len() as int)));
            assert(trace_has_transfer(t2, from, seq![CMD_READ_JEDEC_ID], 3));
            assert(din =~= seq![0u8, 0u8, 0u8]);
            assert(resp@ =~= id_bytes(resp@[0], resp@[1], resp@[2]));
        }
        let id: [u8; 3] = [resp[0], resp[1], resp[2]];
        if jedec_id_rejected(&id) {
            proof {
                assert(id_bytes(id[0], id[1], id[2]) == id_bytes(resp@[0], resp@[1], resp@[2]));
            }
            return Err(Ch347Error::DeviceNotFound);
        }
        proof {
            assert(seq![id[0], id[1], id[2]] =~= id_bytes(resp@[0], resp@[1], resp@[2]));
        }
        Ok(id)
    }

    /// Detect the attached part: read its JEDEC identifier and resolve it to
    /// a registry record, or to a synthesized one for an unknown identifier.
    /// The record is kept for the paged write's geometry.
    pub fn detect(&mut self) -> (r: Result<FlashChip, Ch347Error>)
        ensures
            final(self).initialized() == old(self).initialized(),
            old(self).trace().is_prefix_of(final(self).trace()),
            r is Ok ==> old(self).initialized() && final(self).inv(),
            r matches Ok(c) ==> chip_wf(c) && !spec_id_rejected(c.jedec_id)
                && final(self).chip_spec() == Some(c),
            r matches Ok(c) ==> c.page_size == 256 && c.sector_size == 4096 && c.block_size
                == 65536 && c.size == spec_density_size(c.jedec_id[2]),
            r is Ok ==> trace_has_transfer(
                final(self).trace(),
                old(self).trace().len() as int,
                seq![CMD_READ_JEDEC_ID],
                3,
            ),
            r matches Ok(c) ==> exists|i0: u8, i1: u8, i2: u8|
                #![trigger id_bytes(i0, i1, i2)]
                {
                    &&& reply_events_in(
                        final(self).trace(),
                        old(self).trace().len() as int,
                        seq![0u8, 0u8, 0u8],
                        id_bytes(i0, i1, i2),
                    )
                    &&& (c.jedec_id[0], c.jedec_id[1], c.jedec_id[2]) == (i0, i1, i2)
                },
            r matches Ok(c) ==> known_id(c.jedec_id) ==> exists|k: int|
                #![trigger spec_known_ids()[k]]
                {
                    &&& 0 <= k < spec_known_ids().len()
                    &&& spec_known_ids()[k] == (c.jedec_id[0], c.jedec_id[1], c.jedec_id[2])
                    &&& c.name@ == spec_known_parts()[k].0
                    &&& c.manufacturer@ == spec_known_parts()[k].1
                },
            r matches Ok(c) ==> !known_id(c.jedec_id) ==> c.name@ == spec_unknown_name(c.jedec_id)
                && c.manufacturer@ == "Unknown"@,
            r is Err ==> final(self).chip_spec() == old(self).chip_spec(),
    {
        let id = match self.read_jedec_id() {
            Ok(id) => id,
            Err(e) => { return Err(e); },
        };
        let chip = match resolve_chip(id) {
            Ok(c) => c,
            Err(e) => { return Err(e); },
        };
        proof {
            assert(!spec_id_rejected(chip.jedec_id));
            assert(id_bytes(id[0], id[1], id[2]) == id_bytes(
                chip.jedec_id[0],
                chip.jedec_id[1],
                chip.jedec_id[2],
            ));
            assert(known_id(chip.jedec_id) == known_id(id));
            if !known_id(id) {
                assert(spec_unknown_name(chip.jedec_id) =~= spec_unknown_name(id));
            }
        }
        self.chip = Some(chip.duplicate());
        Ok(chip)
    }

    /// Read the status register: issue the read-status opcode and read one
    /// byte back.
    pub fn read_status(&mut self) -> (r: Result<u8, Ch347Error>)
        ensures
            final(self).initialized() == old(self).initialized(),
            final(self).chip_spec() == old(self).chip_spec(),
            old(self).trace().is_prefix_of(final(self).trace()),
            r is Ok ==> old(self).initialized(),
            r matches Ok(b) ==> status_read_in(
                final(self).trace(),
                old(self).trace().len() as int,
                b,
            ),
            r is Err ==> (r matches Err(Ch347Error::Usb(_))) || (r matches Err(
                Ch347Error::SpiNotInitialized,
            )) || (r matches Err(Ch347Error::InvalidResponse)),
    {
        let mut cmd: Vec<u8> = Vec::new();
        cmd.push(CMD_READ_STATUS);
        let mut resp: Vec<u8> = vec![0u8; 1];
        let ghost din = resp@;
        match self.device.spi_transfer(cmd.as_slice(), &mut resp) {
            Ok(_) => {},
            Err(e) => { return Err(e); },
        }
        proof {
            let from = old(self).trace().len() as int;
            let t2 = self.trace();
            assert(cmd@ =~= seq![CMD_READ_STATUS]);
            assert(t2.skip(from) =~= t2.subrange(from, t2.len() as int));
            assert(is_transfer_trace(seq![CMD_READ_STATUS], 1, t2.subrange(from, t2.len() as int)));
            assert(trace_has_transfer(t2, from, seq![CMD_READ_STATUS], 1));
            assert(din =~= seq![0u8]);
            assert(resp@ =~= seq![resp@[0]]);
        }
        Ok(resp[0])
    }

    /// Poll the status register until the write-in-progress bit clears:
    /// success the instant a polled status has it clear, a transfer failure
    /// once the elapsed wall-clock time exceeds the caller's budget while it
    /// is still set. The status is checked at least once before either
    /// outcome, and the thread pauses for a millisecond between polls. A cap
    /// on the number of polls guards termination; the wall clock decides
    /// first in practice.
    pub fn wait_ready(&mut self, timeout_ms: u32) -> (r: Result<(), Ch347Error>)
        ensures
            final(self).initialized() == old(self).initialized(),
            final(self).chip_spec() == old(self).chip_spec(),
            old(self).trace().is_prefix_of(final(self).trace()),
            r is Ok ==> old(self).initialized(),
            r is Ok ==> exists|b: u8|
                #![trigger status_read_in(final(self).trace(), old(self).trace().len() as int, b)]
                status_read_in(final(self).trace(), old(self).trace().len() as int, b) && b
                    & STATUS_WIP == 0,
            r matches Err(Ch347Error::TransferFailed(m)) ==> m@ == "Timeout waiting for ready"@
                && exists|b: u8|
                #![trigger status_read_in(final(self).trace(), old(self).trace().len() as int, b)]
                status_read_in(final(self).trace(), old(self).trace().len() as int, b) && b
                    & STATUS_WIP != 0,
            r is Err ==> (r matches Err(Ch347Error::TransferFailed(_))) || (r matches Err(
                Ch347Error::Usb(_),
            )) || (r matches Err(Ch347Error::SpiNotInitialized)) || (r matches Err(
                Ch347Error::InvalidResponse,
            )),
    {
        let start = instant_now();
        let mut polls_left: u64 = (timeout_ms as u64 + 1) * 1000;
        while polls_left > 0
            invariant
                self.initialized() == old(self).initialized(),
                self.chip_spec() == old(self).chip_spec(),
                old(self).trace().is_prefix_of(self.trace()),
                polls_left < (timeout_ms as u64 + 1) * 1000 ==> exists|b: u8|
                    #![trigger status_read_in(self.trace(), old(self).trace().len() as int, b)]
                    status_read_in(self.trace(), old(self).trace().len() as int, b) && b
                        & STATUS_WIP != 0,
            decreases polls_left,
        {
            let ghost tprev = self.trace();
            let status = match self.read_status() {
                Ok(s) => s,
                Err(e) => {
                    proof {
                        lemma_prefix_trans(old(self).trace(), tprev, self.trace());
                    }
                    return Err(e);
                },
            };
            proof {
                lemma_prefix_trans(old(self).trace(), tprev, self.trace());
                lemma_status_read_widen(
                    self.trace(),
                    old(self).trace().len() as int,
                    tprev.len() as int,
                    status,
                );
            }
            let elapsed = duration_millis(&instant_elapsed(&start));
            match poll_decision(status, elapsed, timeout_ms as u64) {
                PollDecision::Ready => { return Ok(()); },
                PollDecision::TimedOut => {
                    return Err(
                        Ch347Error::TransferFailed("Timeout waiting for ready".to_owned()),
                    );
                },
                PollDecision::Again => {},
            }
            pause_millis(1);
            polls_left = polls_left - 1;
        }
        Err(Ch347Error::TransferFailed("Timeout waiting for ready".to_owned()))
    }

    /// Set the write-enable latch, then read the status register back and
    /// require the latch bit to be set: a device that did not honor the
    /// command is reported as a transfer failure.
    pub fn write_enable(&mut self) -> (r: Result<(), Ch347Error>)
        ensures
            final(self).initialized() == old(self).initialized(),
            final(self).chip_spec() == old(self).chip_spec(),
            old(self).trace().is_prefix_of(final(self).trace()),
            r is Ok ==> old(self).initialized(),
            r is Ok ==> trace_has_transfer(
                final(self).trace(),
                old(self).trace().len() as int,
                seq![CMD_WRITE_ENABLE],
                0,
            ),
            r is Ok ==> exists|b: u8|
                #![trigger status_read_in(final(self).trace(), old(self).trace().len() as int, b)]
                status_read_in(final(self).trace(), old(self).trace().len() as int, b) && b
                    & STATUS_WEL != 0,
            r matches Err(Ch347Error::TransferFailed(m)) ==> m@ == "Write enable failed"@
                && exists|b: u8|
                #![trigger status_read_in(final(self).trace(), old(self).trace().len() as int, b)]
                status_read_in(final(self).trace(), old(self).trace().len() as int, b) && b
                    & STATUS_WEL == 0,
            r is Err ==> (r matches Err(Ch347Error::TransferFailed(_))) || (r matches Err(
                Ch347Error::Usb(_),
            )) || (r matches Err(Ch347Error::SpiNotInitialized)) || (r matches Err(
                Ch347Error::InvalidResponse,
            )),
    {
        let mut cmd: Vec<u8> = Vec::new();
        cmd.push(CMD_WRITE_ENABLE);
        let mut nothing: Vec<u8> = Vec::new();
        match self.device.spi_transfer(cmd.as_slice(), &mut nothing) {
            Ok(_) => {},
            Err(e) => { return Err(e); },
        }
        proof {
            assert(cmd@ =~= seq![CMD_WRITE_ENABLE]);
        }
        let ghost tprev = self.trace();
        let status = match self.read_status() {
            Ok(s) => s,
            Err(e) => {
                proof {
                    lemma_prefix_trans(old(self).trace(), tprev, self.trace());
                }
                return Err(e);
            },
        };
        proof {
            lemma_prefix_trans(old(self).trace(), tprev, self.trace());
            let from = old(self).trace().len() as int;
            lemma_prefix_segment(from, tprev, self.trace());
            assert(is_transfer_trace(
                seq![CMD_WRITE_ENABLE],
                0,
                self.trace().subrange(from, tprev.len() as int),
            ));
            assert(trace_has_transfer(self.trace(), from, seq![CMD_WRITE_ENABLE], 0));
            lemma_status_read_widen(self.trace(), from, tprev.len() as int, status);
        }
        if status & STATUS_WEL == 0 {
            return Err(Ch347Error::TransferFailed("Write enable failed".to_owned()));
        }
        Ok(())
    }

    /// Read `data.len()` bytes starting at a 24-bit address: issue the
    /// read-data opcode, then fill the buffer in fixed 256-byte sub-chunks,
    /// all within one CS assertion. CS is deasserted on the way out even when
    /// a phase fails.
    pub fn read(&mut self, address: u32, data: &mut Vec<u8>) -> (r: Result<(), Ch347Error>)
        ensures
            final(self).initialized() == old(self).initialized(),
            final(self).chip_spec() == old(self).chip_spec(),
            old(self).trace().is_prefix_of(final(self).trace()),
            final(data)@.len() == old(data)@.len(),
            r is Ok ==> old(self).initialized(),
            r is Ok ==> trace_has_write(
                final(self).trace(),
                old(self).trace().len() as int,
                addr24_cmd(CMD_READ_DATA, address),
            ),
            r is Ok ==> sub_reads_in(
                final(self).trace(),
                old(self).trace().len() as int,
                final(data)@,
                0,
            ),
    {
        match self.device.spi_cs(true) {
            Ok(_) => {},
            Err(e) => { return Err(e); },
        }
        let cmd = make_addr24_cmd(CMD_READ_DATA, address);
        let ghost t1 = self.trace();
        match self.device.spi_write(cmd.as_slice()) {
            Ok(_) => {},
            Err(e) => {
                let ghost t2 = self.trace();
                let _ = self.device.spi_cs(false);
                proof {
                    lemma_prefix_trans(old(self).trace(), t1, t2);
                    lemma_prefix_trans(old(self).trace(), t2, self.trace());
                }
                return Err(e);
            },
        }
        let ghost t2 = self.trace();
        proof {
            lemma_prefix_trans(old(self).trace(), t1, self.trace());
        }
        match self.read_chunks(data, 0) {
            Ok(_) => {},
            Err(e) => {
                let ghost t3 = self.trace();
                let _ = self.device.spi_cs(false);
                proof {
                    lemma_prefix_trans(old(self).trace(), t2, t3);
                    lemma_prefix_trans(old(self).trace(), t3, self.trace());
                }
                return Err(e);
            },
        }
        let ghost t3 = self.trace();
        match self.device.spi_cs(false) {
            Ok(_) => {},
            Err(e) => {
                proof {
                    lemma_prefix_trans(old(self).trace(), t2, t3);
                    lemma_prefix_trans(old(self).trace(), t3, self.trace());
                }
                return Err(e);
            },
        }
        proof {
            let tfinal = self.trace();
            lemma_prefix_trans(old(self).trace(), t2, t3);
            lemma_prefix_trans(old(self).trace(), t3, tfinal);
            lemma_prefix_trans(t1, t2, t3);
            lemma_prefix_trans(t1, t3, tfinal);
            lemma_prefix_segment(t1.len() as int, t2, tfinal);
            assert(is_write_trace(
                addr24_cmd(CMD_READ_DATA, address),
                tfinal.subrange(t1.len() as int, t2.len() as int),
            ));
            assert(trace_has_write(
                tfinal,
                old(self).trace().len() as int,
                addr24_cmd(CMD_READ_DATA, address),
            ));
            lemma_sub_reads_extend(t3, tfinal, t2.len() as int, data@, 0);
            lemma_sub_reads_widen_from(tfinal, old(self).trace().len() as int, t2.len() as int, data@, 0);
        }
        Ok(())
    }

    /// Fill `data` from position `pos` on, in 256-byte sub-chunks, all within
    /// the CS assertion the caller holds.
    fn read_chunks(&mut self, data: &mut Vec<u8>, pos: usize) -> (r: Result<(), Ch347Error>)
        requires
            pos <= old(data)@.len(),
        ensures
            final(self).initialized() == old(self).initialized(),
            final(self).chip_spec() == old(self).chip_spec(),
            old(self).trace().is_prefix_of(final(self).trace()),
            final(data)@.len() == old(data)@.len(),
            final(data)@.take(pos as int) == old(data)@.take(pos as int),
            r is Ok ==> sub_reads_in(
                final(self).trace(),
                old(self).trace().len() as int,
                final(data)@,
                pos as int,
            ),
        decreases old(data)@.len() - pos,
    {
        let total = data.len();
        if pos >= total {
            return Ok(());
        }
        let k: usize = if total - pos < 256 {
            total - pos
        } else {
            256
        };
        let mut chunk: Vec<u8> = vec![0u8; k];
        let ghost din = chunk@;
        match self.device.spi_read(&mut chunk) {
            Ok(_) => {},
            Err(e) => { return Err(e); },
        }
        let ghost t1 = self.trace();
        let mut j: usize = 0;
        while j < k
            invariant
                j <= k,
                pos + k <= total,
                total == data@.len(),
                total == old(data)@.len(),
                chunk@.len() == k,
                forall|m: int|
                    0 <= m < total ==> data@[m] == if pos <= m < pos + j {
                        chunk@[m - pos]
                    } else {
                        old(data)@[m]
                    },
            decreases k - j,
        {
            data[pos + j] = chunk[j];
            j = j + 1;
        }
        let ghost dmid = data@;
        let r = self.read_chunks(data, pos + k);
        proof {
            lemma_prefix_trans(old(self).trace(), t1, self.trace());
            assert(data@.take(pos as int) =~= old(data)@.take(pos as int));
            if r is Ok {
                let tfinal = self.trace();
                let from = old(self).trace().len() as int;
                let upto = t1.len() as int;
                assert(din =~= zero_bytes(k as int));
                assert(t1.skip(from + 1) =~= t1.subrange(from + 1, t1.len() as int));
                assert(reply_events_in(t1, from, zero_bytes(k as int), chunk@));
                assert(data@.subrange(pos as int, pos + k) =~= chunk@) by {
                    assert forall|m: int| 0 <= m < k implies data@.subrange(pos as int, pos + k)[m]
                        == chunk@[m] by {
                        assert(data@[pos + m] == data@.take(pos + k as int)[pos + m]);
                        assert(dmid[pos + m] == chunk@[m]);
                        assert(data@.take(pos + k as int)[pos + m] == dmid.take(pos + k as int)[pos
                            + m]);
                    }
                }
                assert(tfinal.take(upto) =~= t1);
                assert(reply_events_in(
                    tfinal.take(upto),
                    from,
                    zero_bytes(k as int),
                    data@.subrange(pos as int, pos + k),
                ));
                assert(sub_reads_in(tfinal, upto, data@, pos + k));
                assert(sub_reads_in(tfinal, from, data@, pos as int));
            }
        }
        r
    }

    /// Erase the 4 KiB sector holding a 24-bit address: write enable, the
    /// sector-erase opcode with the address, then wait up to the sector-erase
    /// budget for the part to finish.
    pub fn erase_sector(&mut self, address: u32) -> (r: Result<(), Ch347Error>)
        ensures
            final(self).initialized() == old(self).initialized(),
            final(self).chip_spec() == old(self).chip_spec(),
            old(self).trace().is_prefix_of(final(self).trace()),
            r is Ok ==> old(self).initialized(),
            r is Ok ==> trace_has_transfer(
                final(self).trace(),
                old(self).trace().len() as int,
                addr24_cmd(CMD_SECTOR_ERASE, address),
                0,
            ),
            r is Ok ==> trace_has_transfer(
                final(self).trace(),
                old(self).trace().len() as int,
                seq![CMD_WRITE_ENABLE],
                0,
            ),
            r is Ok ==> exists|b: u8|
                #![trigger status_read_in(final(self).trace(), old(self).trace().len() as int, b)]
                status_read_in(final(self).trace(), old(self).trace().len() as int, b) && b
                    & STATUS_WIP == 0,
    {
        let cmd = make_addr24_cmd(CMD_SECTOR_ERASE, address);
        self.erase_with(cmd, 500)
    }

    /// Erase the 64 KiB block holding a 24-bit address: write enable, the
    /// block-erase opcode with the address, then wait up to the block-erase
    /// budget for the part to finish.
    pub fn erase_block(&mut self, address: u32) -> (r: Result<(), Ch347Error>)
        ensures
            final(self).initialized() == old(self).initialized(),
            final(self).chip_spec() == old(self).chip_spec(),
            old(self).trace().is_prefix_of(final(self).trace()),
            r is Ok ==> old(self).initialized(),
            r is Ok ==> trace_has_transfer(
                final(self).trace(),
                old(self).trace().len() as int,
                addr24_cmd(CMD_BLOCK_ERASE_64K, address),
                0,
            ),
            r is Ok ==> trace_has_transfer(
                final(self).trace(),
                old(self).trace().len() as int,
                seq![CMD_WRITE_ENABLE],
                0,
            ),
            r is Ok ==> exists|b: u8|
                #![trigger status_read_in(final(self).trace(), old(self).trace().len() as int, b)]
                status_read_in(final(self).trace(), old(self).trace().len() as int, b) && b
                    & STATUS_WIP == 0,
    {
        let cmd = make_addr24_cmd(CMD_BLOCK_ERASE_64K, address);
        self.erase_with(cmd, 3000)
    }

    /// Erase the entire chip: write enable, the chip-erase opcode with no
    /// address, then wait up to the chip-erase budget for the part to finish.
    pub fn erase_chip(&mut self) -> (r: Result<(), Ch347Error>)
        ensures
            final(self).initialized() == old(self).initialized(),
            final(self).chip_spec() == old(self).chip_spec(),
            old(self).trace().is_prefix_of(final(self).trace()),
            r is Ok ==> old(self).initialized(),
            r is Ok ==> trace_has_transfer(
                final(self).trace(),
                old(self).trace().len() as int,
                seq![CMD_CHIP_ERASE],
                0,
            ),
            r is Ok ==> trace_has_transfer(
                final(self).trace(),
                old(self).trace().len() as int,
                seq![CMD_WRITE_ENABLE],
                0,
            ),
            r is Ok ==> exists|b: u8|
                #![trigger status_read_in(final(self).trace(), old(self).trace().len() as int, b)]
                status_read_in(final(self).trace(), old(self).trace().len() as int, b) && b
                    & STATUS_WIP == 0,
    {
        let mut cmd: Vec<u8> = Vec::new();
        cmd.push(CMD_CHIP_ERASE);
        proof {
            assert(cmd@ =~= seq![CMD_CHIP_ERASE]);
        }
        self.erase_with(cmd, 200000)
    }

    /// One erase operation: write enable, the erase command under CS, then
    /// ready-polling within the operation's budget.
    fn erase_with(&mut self, cmd: Vec<u8>, timeout_ms: u32) -> (r: Result<(), Ch347Error>)
        ensures
            final(self).initialized() == old(self).initialized(),
            final(self).chip_spec() == old(self).chip_spec(),
            old(self).trace().is_prefix_of(final(self).trace()),
            r is Ok ==> old(self).initialized(),
            r is Ok ==> trace_has_transfer(
                final(self).trace(),
                old(self).trace().len() as int,
                cmd@,
                0,
            ),
            r is Ok ==> trace_has_transfer(
                final(self).trace(),
                old(self).trace().len() as int,
                seq![CMD_WRITE_ENABLE],
                0,
            ),
            r is Ok ==> exists|b: u8|
                #![trigger status_read_in(final(self).trace(), old(self).trace().len() as int, b)]
                status_read_in(final(self).trace(), old(self).trace().len() as int, b) && b
                    & STATUS_WIP == 0,
    {
        match self.write_enable() {
            Ok(_) => {},
            Err(e) => { return Err(e); },
        }
        let ghost t1 = self.trace();
        let mut nothing: Vec<u8> = Vec::new();
        match self.device.spi_transfer(cmd.as_slice(), &mut nothing) {
            Ok(_) => {},
            Err(e) => {
                proof {
                    lemma_prefix_trans(old(self).trace(), t1, self.trace());
                }
                return Err(e);
            },
        }
        let ghost t2 = self.trace();
        let r = self.wait_ready(timeout_ms);
        proof {
            lemma_prefix_trans(old(self).trace(), t1, t2);
            lemma_prefix_trans(old(self).trace(), t2, self.trace());
            if r is Ok {
                let from = old(self).trace().len() as int;
                lemma_prefix_segment(t1.len() as int, t2, self.trace());
                assert(is_transfer_trace(
                    cmd@,
                    0,
                    self.trace().subrange(t1.len() as int, t2.len() as int),
                ));
                assert(trace_has_transfer(self.trace(), from, cmd@, 0));
                lemma_prefix_trans(t1, t2, self.trace());
                lemma_has_transfer_extend(t1, self.trace(), from, seq![CMD_WRITE_ENABLE], 0);
                assert forall|b: u8|
                    #[trigger] status_read_in(self.trace(), t2.len() as int, b) implies status_read_in(
                    self.trace(),
                    from,
                    b,
                ) by {
                    lemma_status_read_widen(self.trace(), from, t2.len() as int, b);
                }
            }
        }
        r
    }

    /// Program one page: 1 to 256 bytes, sent as the page-program opcode, the
    /// 24-bit address and the data in a single SPI write under one CS
    /// assertion, then ready-polling within the page-program budget. A
    /// payload that is empty or longer than a page is rejected before
    /// anything is sent; the caller is responsible for page alignment, a
    /// write straddling a page boundary is not clipped here.
    pub fn program_page(&mut self, address: u32, data: &[u8]) -> (r: Result<(), Ch347Error>)
        ensures
            final(self).initialized() == old(self).initialized(),
            final(self).chip_spec() == old(self).chip_spec(),
            old(self).trace().is_prefix_of(final(self).trace()),
            data@.len() == 0 || data@.len() > 256 ==> (r matches Err(
                Ch347Error::TransferFailed(_),
            )) && final(self).trace() == old(self).trace(),
            r is Ok ==> old(self).initialized() && 1 <= data@.len() <= 256,
            r is Ok ==> trace_has_transfer(
                final(self).trace(),
                old(self).trace().len() as int,
                addr24_cmd(CMD_PAGE_PROGRAM, address) + data@,
                0,
            ),
            r is Ok ==> trace_has_transfer(
                final(self).trace(),
                old(self).trace().len() as int,
                seq![CMD_WRITE_ENABLE],
                0,
            ),
            r is Ok ==> exists|b: u8|
                #![trigger status_read_in(final(self).trace(), old(self).trace().len() as int, b)]
                status_read_in(final(self).trace(), old(self).trace().len() as int, b) && b
                    & STATUS_WIP == 0,
    {
        let len = data.len();
        if len == 0 || len > 256 {
            proof {
                assert(self.trace().is_prefix_of(self.trace()));
            }
            return Err(Ch347Error::TransferFailed("Invalid page size".to_owned()));
        }
        match self.write_enable() {
            Ok(_) => {},
            Err(e) => { return Err(e); },
        }
        let mut cmd = make_addr24_cmd(CMD_PAGE_PROGRAM, address);
        proof {
            assert(cmd@ =~= addr24_cmd(CMD_PAGE_PROGRAM, address) + data@.take(0));
        }
        let mut i: usize = 0;
        while i < len
            invariant
                i <= len,
                len == data@.len(),
                cmd@ == addr24_cmd(CMD_PAGE_PROGRAM, address) + data@.take(i as int),
            decreases len - i,
        {
            cmd.push(data[i]);
            proof {
                assert(cmd@ =~= addr24_cmd(CMD_PAGE_PROGRAM, address) + data@.take(i + 1));
            }
            i = i + 1;
        }
        proof {
            assert(cmd@ =~= addr24_cmd(CMD_PAGE_PROGRAM, address) + data@);
        }
        let ghost t1 = self.trace();
        let mut nothing: Vec<u8> = Vec::new();
        match self.device.spi_transfer(cmd.as_slice(), &mut nothing) {
            Ok(_) => {},
            Err(e) => {
                proof {
                    lemma_prefix_trans(old(self).trace(), t1, self.trace());
                }
                return Err(e);
            },
        }
        let ghost t2 = self.trace();
        let r = self.wait_ready(10);
        proof {
            lemma_prefix_trans(old(self).trace(), t1, t2);
            lemma_prefix_trans(old(self).trace(), t2, self.trace());
            if r is Ok {
                let from = old(self).trace().len() as int;
                lemma_prefix_segment(t1.len() as int, t2, self.trace());
                assert(is_transfer_trace(
                    addr24_cmd(CMD_PAGE_PROGRAM, address) + data@,
                    0,
                    self.trace().subrange(t1.len() as int, t2.len() as int),
                ));
                assert(trace_has_transfer(
                    self.trace(),
                    from,
                    addr24_cmd(CMD_PAGE_PROGRAM, address) + data@,
                    0,
                ));
                lemma_prefix_trans(t1, t2, self.trace());
                lemma_has_transfer_extend(t1, self.trace(), from, seq![CMD_WRITE_ENABLE], 0);
                assert forall|b: u8|
                    #[trigger] status_read_in(self.trace(), t2.len() as int, b) implies status_read_in(
                    self.trace(),
                    from,
                    b,
                ) by {
                    lemma_status_read_widen(self.trace(), from, t2.len() as int, b);
                }
            }
        }
        r
    }

    /// Write an arbitrary-length payload: split it into page-program calls so
    /// that no single call crosses a page boundary, wherever the address
    /// starts within a page (see `lemma_page_chunk_in_page` and
    /// `paged_program_in`). A paged write needs the detected geometry and
    /// fails cleanly while no part has been detected. The optional progress
    /// callback is invoked after each page with the bytes done and the total.
    pub fn write<F: Fn(usize, usize)>(
        &mut self,
        address: u32,
        data: &[u8],
        progress: Option<&F>,
    ) -> (r: Result<(), Ch347Error>)
        requires
            old(self).inv(),
            address as int + data@.len() <= 0x1_0000_0000,
            progress matches Some(f) ==> forall|done: usize, total: usize|
                call_requires(*f, (done, total)),
        ensures
            final(self).initialized() == old(self).initialized(),
            final(self).chip_spec() == old(self).chip_spec(),
            final(self).inv(),
            old(self).trace().is_prefix_of(final(self).trace()),
            old(self).chip_spec() is None ==> (r matches Err(Ch347Error::TransferFailed(_)))
                && final(self).trace() == old(self).trace(),
            old(self).chip_spec() is Some && data@.len() == 0 ==> r is Ok && final(self).trace()
                == old(self).trace(),
            r is Ok && data@.len() > 0 ==> old(self).initialized(),
            old(self).chip_spec() matches Some(c) ==> (r is Ok ==> paged_program_in(
                final(self).trace(),
                old(self).trace().len() as int,
                address as int,
                data@,
                c.page_size as int,
            )),
    {
        let page_size = match &self.chip {
            Some(c) => c.page_size,
            None => {
                return Err(Ch347Error::TransferFailed("No chip detected".to_owned()));
            },
        };
        let r = self.write_pages(address, data, 0, page_size, progress);
        proof {
            if r is Ok {
                assert(data@.skip(0) =~= data@);
            }
        }
        r
    }

    /// Program the chunks of `data` from `offset` on, page by page.
    fn write_pages<F: Fn(usize, usize)>(
        &mut self,
        address: u32,
        data: &[u8],
        offset: usize,
        page_size: usize,
        progress: Option<&F>,
    ) -> (r: Result<(), Ch347Error>)
        requires
            offset <= data@.len(),
            page_size > 0,
            old(self).inv(),
            address as int + data@.len() <= 0x1_0000_0000,
            progress matches Some(f) ==> forall|done: usize, total: usize|
                call_requires(*f, (done, total)),
        ensures
            final(self).initialized() == old(self).initialized(),
            final(self).chip_spec() == old(self).chip_spec(),
            final(self).inv(),
            old(self).trace().is_prefix_of(final(self).trace()),
            offset == data@.len() ==> r is Ok && final(self).trace() == old(self).trace(),
            r is Ok && offset < data@.len() ==> old(self).initialized(),
            r is Ok ==> paged_program_in(
                final(self).trace(),
                old(self).trace().len() as int,
                address as int + offset,
                data@.skip(offset as int),
                page_size as int,
            ),
        decreases data@.len() - offset,
    {
        let len = data.len();
        if offset == len {
            proof {
                assert(data@.skip(offset as int) =~= Seq::<u8>::empty());
            }
            return Ok(());
        }
        let addr = address + (offset as u32);
        let remaining = len - offset;
        let k = page_chunk_len(addr, page_size, remaining);
        let chunk = slice_subrange(data, offset, offset + k);
        match self.program_page(addr, chunk) {
            Ok(_) => {},
            Err(e) => { return Err(e); },
        }
        let ghost t1 = self.trace();
        if let Some(cb) = progress {
            (cb)(offset + k, len);
        }
        let r = self.write_pages(address, data, offset + k, page_size, progress);
        proof {
            lemma_prefix_trans(old(self).trace(), t1, self.trace());
            if r is Ok {
                let tfinal = self.trace();
                let from = old(self).trace().len() as int;
                let upto = t1.len() as int;
                assert(tfinal.take(upto) =~= t1);
                assert(chunk@ =~= data@.skip(offset as int).take(k as int));
                assert(trace_has_transfer(
                    tfinal.take(upto),
                    from,
                    addr24_cmd(CMD_PAGE_PROGRAM, addr) + data@.skip(offset as int).take(k as int),
                    0,
                ));
                assert(data@.skip(offset as int).skip(k as int) =~= data@.skip(offset + k));
                assert(paged_program_in(
                    tfinal,
                    upto,
                    address as int + offset + k,
                    data@.skip(offset + k),
                    page_size as int,
                ));
                assert(paged_program_in(
                    tfinal,
                    from,
                    address as int + offset,
                    data@.skip(offset as int),
                    page_size as int,
                ));
            }
        }
        r
    }

    /// Compare the flash contents from a 24-bit address against an expected
    /// payload: read back in 4 KiB chunks and compare chunk by chunk. The
    /// result is false on the first mismatching chunk, and no further chunk
    /// is read after it. The optional progress callback is invoked after each
    /// chunk with the bytes done and the total.
    pub fn verify<F: Fn(usize, usize)>(
        &mut self,
        address: u32,
        data: &[u8],
        progress: Option<&F>,
    ) -> (r: Result<bool, Ch347Error>)
        requires
            address as int + data@.len() <= 0x1_0000_0000,
            progress matches Some(f) ==> forall|done: usize, total: usize|
                call_requires(*f, (done, total)),
        ensures
            final(self).initialized() == old(self).initialized(),
            final(self).chip_spec() == old(self).chip_spec(),
            old(self).trace().is_prefix_of(final(self).trace()),
            r is Ok && data@.len() > 0 ==> old(self).initialized(),
            r matches Ok(b) ==> verify_outcome(
                final(self).trace(),
                old(self).trace().len() as int,
                data@,
                0,
                b,
            ),
    {
        self.verify_chunks(address, data, 0, progress)
    }

    /// Compare the chunks of `data` from `offset` on against the flash
    /// contents, 4 KiB at a time.
    fn verify_chunks<F: Fn(usize, usize)>(
        &mut self,
        address: u32,
        data: &[u8],
        offset: usize,
        progress: Option<&F>,
    ) -> (r: Result<bool, Ch347Error>)
        requires
            offset <= data@.len(),
            address as int + data@.len() <= 0x1_0000_0000,
            progress matches Some(f) ==> forall|done: usize, total: usize|
                call_requires(*f, (done, total)),
        ensures
            final(self).initialized() == old(self).initialized(),
            final(self).chip_spec() == old(self).chip_spec(),
            old(self).trace().is_prefix_of(final(self).trace()),
            r is Ok && offset < data@.len() ==> old(self).initialized(),
            r matches Ok(b) ==> verify_outcome(
                final(self).trace(),
                old(self).trace().len() as int,
                data@,
                offset as int,
                b,
            ),
        decreases data@.len() - offset,
    {
        let total = data.len();
        if offset >= total {
            return Ok(true);
        }
        let addr = address + (offset as u32);
        let remaining = total - offset;
        let k: usize = if remaining < 4096 {
            remaining
        } else {
            4096
        };
        let mut buf: Vec<u8> = vec![0u8; k];
        match self.read(addr, &mut buf) {
            Ok(_) => {},
            Err(e) => { return Err(e); },
        }
        let ghost t1 = self.trace();
        let expected = slice_subrange(data, offset, offset + k);
        if !slices_equal(buf.as_slice(), expected) {
            proof {
                let from = old(self).trace().len() as int;
                assert(t1.take(t1.len() as int) =~= t1);
                assert(sub_reads_in(t1.take(t1.len() as int), from, buf@, 0));
                assert(buf@ != data@.subrange(offset as int, offset + k));
                assert(verify_outcome(t1, from, data@, offset as int, false));
            }
            return Ok(false);
        }
        if let Some(cb) = progress {
            (cb)(offset + k, total);
        }
        let r = self.verify_chunks(address, data, offset + k, progress);
        proof {
            lemma_prefix_trans(old(self).trace(), t1, self.trace());
            if r is Ok {
                let b = r->Ok_0;
                let tfinal = self.trace();
                let from = old(self).trace().len() as int;
                let upto = t1.len() as int;
                assert(tfinal.take(upto) =~= t1);
                assert(sub_reads_in(tfinal.take(upto), from, buf@, 0));
                assert(buf@ == data@.subrange(offset as int, offset + k));
                assert(verify_outcome(tfinal, upto, data@, offset + k, b));
                assert(verify_outcome(tfinal, from, data@, offset as int, b));
            }
        }
        r
    }

    /// The detected flash record, if `detect` has succeeded.
    pub fn get_chip(&self) -> (r: Option<&FlashChip>)
        ensures
            r is Some <==> self.chip_spec() is Some,
            r matches Some(c) ==> self.chip_spec() == Some(*c),
    {
        self.chip.as_ref()
    }
}

} // verus!
