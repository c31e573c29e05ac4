//! Plain data handed to the host shell: command outcome envelopes and the
//! display summaries of devices and detected parts.

use vstd::prelude::*;

use crate::flash::{spec_size_str, FlashChip};
use crate::text::{hex_byte, push_hex_byte};

verus! {

/// Outcome envelope for one host command: either data or an error message.
#[derive(Debug, Clone)]
pub struct CmdResult<T> {
    pub success: bool,
    pub data: Option<T>,
    pub error: Option<String>,
}

impl<T> CmdResult<T> {
    /// A successful outcome carrying its data.
    pub fn ok(data: T) -> (r: Self)
        ensures
            r.success,
            r.data == Some(data),
            r.error is None,
    {
        Self { success: true, data: Some(data), error: None }
    }

    /// A failed outcome carrying its message.
    pub fn err(msg: String) -> (r: Self)
        ensures
            !r.success,
            r.data is None,
            r.error == Some(msg),
    {
        Self { success: false, data: None, error: Some(msg) }
    }
}

/// Connection summary of a bridge, for display.
#[derive(Debug, Clone)]
pub struct DeviceInfo {
    pub connected: bool,
    pub vid: Option<u16>,
    pub pid: Option<u16>,
    pub name: Option<String>,
}

/// Summary of a detected flash part, for display.
#[derive(Debug, Clone)]
pub struct ChipInfo {
    pub detected: bool,
    pub name: String,
    pub manufacturer: String,
    /// The JEDEC identifier as three hexadecimal byte pairs separated by
    /// spaces.
    pub jedec_id: String,
    pub size: usize,
    pub size_str: String,
}

/// The identifier as written in a part summary.
pub open spec fn spec_jedec_id_str(id: [u8; 3]) -> Seq<char> {
    hex_byte(id[0]) + " "@ + hex_byte(id[1]) + " "@ + hex_byte(id[2])
}

impl ChipInfo {
    /// Assemble the display summary of a detected part.
    pub fn from_chip(chip: &FlashChip) -> (r: ChipInfo)
        ensures
            r.detected,
            r.name@ == chip.name@,
            r.manufacturer@ == chip.manufacturer@,
            r.jedec_id@ == spec_jedec_id_str(chip.jedec_id),
            r.size == chip.size,
            r.size_str@ == spec_size_str(chip.size as nat),
    {
        let mut id = String::new();
        push_hex_byte(chip.jedec_id[0], &mut id);
        id.push(' ');
        push_hex_byte(chip.jedec_id[1], &mut id);
        id.push(' ');
        push_hex_byte(chip.jedec_id[2], &mut id);
        proof {
            reveal_strlit(" ");
            assert(" "@ =~= seq![' ']);
            assert(id@ =~= spec_jedec_id_str(chip.jedec_id));
        }
        ChipInfo {
            detected: true,
            name: chip.name.clone(),
            manufacturer: chip.manufacturer.clone(),
            jedec_id: id,
            size: chip.size,
            size_str: chip.size_str(),
        }
    }
}

} // verus!
