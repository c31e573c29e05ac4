//! USB transport and SPI protocol engine for the CH347 bridge chip.
//!
//! The device handle owns an exclusively claimed vendor interface and performs
//! timed bulk transfers. Every bulk transfer the engine attempts is recorded
//! in a ghost trace of [`UsbEvent`]s, and the engine's contracts pin the wire
//! protocol down against that trace: what the configuration, chip-select,
//! write and read packets hold, how writes are chunked, and how chunked read
//! responses are validated and consumed.

use vstd::prelude::*;

use crate::packets::{
    config_packet, cs_packet, make_config_packet, make_cs_packet, make_read_cmd_packet,
    make_write_packet, read_cmd_packet, wchunks, write_chunk_len, write_packet, PACKET_SIZE,
};
use crate::packets::SpiClock;
use rusb::UsbContext;

verus! {

/// Vendor ID of the bridge chip.
pub const CH347_VID: u16 = 0x1A86;

/// Product ID of the CH347T variant.
pub const CH347T_PID: u16 = 0x55DB;

/// Product ID of the CH347F variant.
pub const CH347F_PID: u16 = 0x55DE;

/// Bulk OUT endpoint address.
pub const EP_OUT: u8 = 0x06;

/// Bulk IN endpoint address.
pub const EP_IN: u8 = 0x86;

/// SPI interface number of the CH347T variant.
pub const CH347T_IFACE: u8 = 2;

/// SPI interface number of the CH347F variant.
pub const CH347F_IFACE: u8 = 4;

/// Per-transfer timeout in milliseconds.
pub const USB_TIMEOUT_MS: u64 = 1000;

#[verifier::external_type_specification]
#[verifier::external_body]
pub struct ExContext(rusb::Context);

#[verifier::external_type_specification]
#[verifier::external_body]
pub struct ExDeviceDescriptor(rusb::DeviceDescriptor);

/// One attached USB device, as enumerated by rusb. Opaque: rusb's device type
/// is generic over its context trait, which cannot be declared here.
#[verifier::external_body]
pub struct UsbDevice {
    device: rusb::Device<rusb::Context>,
}

/// One opened rusb device handle. Opaque, as [`UsbDevice`] is. Dropping it
/// releases every claimed interface and closes the device (rusb's own drop).
#[verifier::external_body]
pub struct UsbHandle {
    handle: rusb::DeviceHandle<rusb::Context>,
}

#[verifier::external_type_specification]
#[verifier::external_body]
pub struct ExUsbError(rusb::Error);

/// Errors of the transport and of the layers above it.
#[derive(Debug)]
pub enum Ch347Error {
    /// An underlying USB failure (stall, timeout, disconnect, permission).
    Usb(rusb::Error),
    /// No matching bridge was found, or the flash answered with an idle bus.
    DeviceNotFound,
    /// The interface could not be claimed.
    DeviceBusy,
    /// A malformed or short packet header during a chunked read.
    InvalidResponse,
    /// A transfer that completed but did not take effect, with the reason.
    TransferFailed(String),
    /// A transfer was attempted before the SPI session was configured.
    SpiNotInitialized,
}

impl Ch347Error {
    /// A human-readable description of the error.
    pub fn message(&self) -> (r: String)
        ensures
            self is DeviceNotFound ==> r@ == "Device not found"@,
            self is DeviceBusy ==> r@ == "Device busy or permission denied"@,
            self is InvalidResponse ==> r@ == "Invalid response from device"@,
            self is SpiNotInitialized ==> r@ == "SPI not initialized"@,
            self is Usb ==> r@ == "USB error"@,
            self matches Ch347Error::TransferFailed(m) ==> r@ == "Transfer failed: "@ + m@,
    {
        match self {
            Ch347Error::Usb(_) => "USB error".to_owned(),
            Ch347Error::DeviceNotFound => "Device not found".to_owned(),
            Ch347Error::DeviceBusy => "Device busy or permission denied".to_owned(),
            Ch347Error::InvalidResponse => "Invalid response from device".to_owned(),
            Ch347Error::TransferFailed(m) => {
                let mut s = "Transfer failed: ".to_owned();
                s.push_str(m.as_str());
                s
            },
            Ch347Error::SpiNotInitialized => "SPI not initialized".to_owned(),
        }
    }
}

/// Identity of an attached bridge, for display.
#[derive(Debug, Clone)]
pub struct DeviceInfo {
    pub vid: u16,
    pub pid: u16,
    pub manufacturer: String,
    pub product: String,
    pub is_ch347t: bool,
}

/// One attempted bulk transfer, as recorded in the ghost trace: the bytes
/// handed to the OUT endpoint, or the bytes that arrived from the IN endpoint.
pub enum UsbEvent {
    Out { sent: Seq<u8> },
    In { recv: Seq<u8> },
}

/// The payload bytes of an event.
pub open spec fn event_bytes(e: UsbEvent) -> Seq<u8> {
    match e {
        UsbEvent::Out { sent } => sent,
        UsbEvent::In { recv } => recv,
    }
}

/// The interface number a product ID pairs with, if the product is a known
/// bridge variant.
pub open spec fn spec_interface_for_pid(pid: u16) -> Option<u8> {
    if pid == CH347T_PID {
        Some(CH347T_IFACE)
    } else if pid == CH347F_PID {
        Some(CH347F_IFACE)
    } else {
        None
    }
}

/// Decide whether a product ID is a known bridge variant, and which interface
/// number to claim on it.
pub fn interface_for_pid(pid: u16) -> (r: Option<u8>)
    ensures
        r == spec_interface_for_pid(pid),
{
    if pid == CH347T_PID {
        Some(CH347T_IFACE)
    } else if pid == CH347F_PID {
        Some(CH347F_IFACE)
    } else {
        None
    }
}

/// An exclusively claimed USB interface to one bridge chip, with the SPI
/// session state layered on it.
///
/// Teardown relies on rusb's `DeviceHandle`: dropping the handle releases
/// every claimed interface and closes the device, on every exit path.
pub struct Ch347Device {
    handle: UsbHandle,
    interface: u8,
    spi_initialized: bool,
    trace: Ghost<Seq<UsbEvent>>,
}

impl Ch347Device {
    /// The claimed interface number.
    pub closed spec fn iface(&self) -> u8 {
        self.interface
    }

    /// Whether the SPI session has been configured.
    pub closed spec fn initialized(&self) -> bool {
        self.spi_initialized
    }

    /// The bulk transfers attempted so far, in order.
    pub closed spec fn trace(&self) -> Seq<UsbEvent> {
        self.trace@
    }

    /// Find and open a bridge chip: scan all USB devices for one of the two
    /// known vendor/product pairs and return the first whose interface can be
    /// claimed; a device whose interface is busy is skipped in favour of the
    /// next candidate.
    pub fn open() -> (r: Result<Ch347Device, Ch347Error>)
        ensures
            r matches Ok(d) ==> !d.initialized() && d.trace() == Seq::<UsbEvent>::empty(),
            r is Err ==> (r matches Err(Ch347Error::DeviceNotFound)) || (r matches Err(
                Ch347Error::Usb(_),
            )),
    {
        let context = match usb_new_context() {
            Ok(c) => c,
            Err(e) => { return Err(Ch347Error::Usb(e)); },
        };
        let devices = match usb_device_list(&context) {
            Ok(d) => d,
            Err(e) => { return Err(Ch347Error::Usb(e)); },
        };
        let mut i: usize = 0;
        while i < devices.len()
            decreases devices.len() - i,
        {
            let desc = match usb_device_descriptor(&devices[i]) {
                Ok(d) => Some(d),
                Err(_) => None,
            };
            if let Some(desc) = desc {
                if usb_descriptor_vid(&desc) == CH347_VID {
                    if let Some(iface) = interface_for_pid(usb_descriptor_pid(&desc)) {
                        match Self::open_device(&devices[i], iface) {
                            Ok(dev) => { return Ok(dev); },
                            Err(_) => {},
                        }
                    }
                }
            }
            i = i + 1;
        }
        Err(Ch347Error::DeviceNotFound)
    }

    /// Open one device and claim the given interface. A kernel driver bound
    /// to the interface is detached first, best effort: detachment failure is
    /// not fatal, a claim failure is.
    fn open_device(device: &UsbDevice, interface: u8) -> (r: Result<
        Ch347Device,
        Ch347Error,
    >)
        ensures
            r matches Ok(d) ==> !d.initialized() && d.trace() == Seq::<UsbEvent>::empty()
                && d.iface() == interface,
    {
        let handle = match usb_open(device) {
            Ok(h) => h,
            Err(e) => { return Err(Ch347Error::Usb(e)); },
        };
        if usb_kernel_driver_active(&handle, interface) {
            usb_detach_kernel_driver(&handle, interface);
        }
        match usb_claim_interface(&handle, interface) {
            Ok(_) => Ok(
                Ch347Device {
                    handle,
                    interface,
                    spi_initialized: false,
                    trace: Ghost(Seq::empty()),
                },
            ),
            Err(e) => Err(Ch347Error::Usb(e)),
        }
    }

    /// Read the device identity strings for display; a string the device does
    /// not offer falls back to empty. Non-critical.
    pub fn get_info(&self) -> (r: Result<DeviceInfo, Ch347Error>)
        ensures
            r matches Ok(info) ==> (info.is_ch347t <==> info.pid == CH347T_PID),
    {
        let desc = match usb_handle_descriptor(&self.handle) {
            Ok(d) => d,
            Err(e) => { return Err(Ch347Error::Usb(e)); },
        };
        let manufacturer = match usb_read_manufacturer(&self.handle, &desc) {
            Ok(s) => s,
            Err(_) => String::new(),
        };
        let product = match usb_read_product(&self.handle, &desc) {
            Ok(s) => s,
            Err(_) => String::new(),
        };
        let pid = usb_descriptor_pid(&desc);
        Ok(
            DeviceInfo {
                vid: usb_descriptor_vid(&desc),
                pid,
                manufacturer,
                product,
                is_ch347t: pid == CH347T_PID,
            },
        )
    }

    /// Relies on rusb::DeviceHandle::write_bulk: performs one bulk transfer
    /// of `data` to the fixed OUT endpoint, bounded by the fixed timeout; on
    /// success the result is the number of bytes written, at most the buffer
    /// length. The attempt is recorded in the ghost trace.
    #[verifier::external_body]
    fn bulk_out(&mut self, data: &Vec<u8>) -> (r: Result<usize, rusb::Error>)
        ensures
            final(self).iface() == old(self).iface(),
            final(self).initialized() == old(self).initialized(),
            final(self).trace() == old(self).trace().push(UsbEvent::Out { sent: data@ }),
            r matches Ok(n) ==> n <= data@.len(),
    {
        self.handle.handle.write_bulk(EP_OUT, data.as_slice(), std::time::Duration::from_millis(USB_TIMEOUT_MS))
    }

    /// Relies on rusb::DeviceHandle::read_bulk: performs one bulk transfer
    /// from the fixed IN endpoint into `buf`, bounded by the fixed timeout;
    /// on success the result is the number of bytes received, at most the
    /// buffer length, and those bytes are the prefix of `buf`. The bytes that
    /// arrived are recorded in the ghost trace.
    #[verifier::external_body]
    fn bulk_in(&mut self, buf: &mut Vec<u8>) -> (r: Result<usize, rusb::Error>)
        ensures
            final(self).iface() == old(self).iface(),
            final(self).initialized() == old(self).initialized(),
            final(buf)@.len() == old(buf)@.len(),
            match r {
                Ok(n) => n <= final(buf)@.len() && final(self).trace() == old(self).trace().push(
                    UsbEvent::In { recv: final(buf)@.take(n as int) },
                ),
                Err(_) => exists|bs: Seq<u8>|
                    final(self).trace() == old(self).trace().push(UsbEvent::In { recv: bs }),
            },
    {
        self.handle.handle.read_bulk(EP_IN, buf.as_mut_slice(), std::time::Duration::from_millis(USB_TIMEOUT_MS))
    }
}

/// Relies on rusb::Context::new: opens a new libusb context.
#[verifier::external_body]
fn usb_new_context() -> (r: Result<rusb::Context, rusb::Error>) {
    rusb::Context::new()
}

/// Relies on rusb::UsbContext::devices: the list of USB devices currently
/// attached to the system, here collected into a vector.
#[verifier::external_body]
fn usb_device_list(context: &rusb::Context) -> (r: Result<Vec<UsbDevice>, rusb::Error>) {
    match context.devices() {
        Ok(list) => Ok(list.iter().map(|device| UsbDevice { device }).collect()),
        Err(e) => Err(e),
    }
}

/// Relies on rusb::Device::device_descriptor: reads the device descriptor.
#[verifier::external_body]
fn usb_device_descriptor(device: &UsbDevice) -> (r: Result<rusb::DeviceDescriptor, rusb::Error>) {
    device.device.device_descriptor()
}

/// Relies on rusb::DeviceDescriptor::vendor_id: the descriptor's vendor ID.
#[verifier::external_body]
fn usb_descriptor_vid(desc: &rusb::DeviceDescriptor) -> (r: u16) {
    desc.vendor_id()
}

/// Relies on rusb::DeviceDescriptor::product_id: the descriptor's product ID.
#[verifier::external_body]
fn usb_descriptor_pid(desc: &rusb::DeviceDescriptor) -> (r: u16) {
    desc.product_id()
}

/// Relies on rusb::Device::open: opens the device, yielding a handle.
#[verifier::external_body]
fn usb_open(device: &UsbDevice) -> (r: Result<UsbHandle, rusb::Error>) {
    match device.device.open() {
        Ok(handle) => Ok(UsbHandle { handle }),
        Err(e) => Err(e),
    }
}

/// Relies on rusb::DeviceHandle::kernel_driver_active: whether a kernel
/// driver is bound to the interface; platforms without support report none.
#[verifier::external_body]
fn usb_kernel_driver_active(handle: &UsbHandle, iface: u8) -> (r: bool) {
    handle.handle.kernel_driver_active(iface).unwrap_or(false)
}

/// Relies on rusb::DeviceHandle::detach_kernel_driver: detaches a kernel
/// driver from the interface; best effort, failure is ignored.
#[verifier::external_body]
fn usb_detach_kernel_driver(handle: &UsbHandle, iface: u8) {
    let _ = handle.handle.detach_kernel_driver(iface);
}

/// Relies on rusb::DeviceHandle::claim_interface: claims the interface; all
/// claimed interfaces are released again when the handle is dropped.
#[verifier::external_body]
fn usb_claim_interface(handle: &UsbHandle, iface: u8) -> (r: Result<(), rusb::Error>) {
    handle.handle.claim_interface(iface)
}

/// Relies on rusb::DeviceHandle::device: the device the handle belongs to,
/// and rusb::Device::device_descriptor: its descriptor.
#[verifier::external_body]
fn usb_handle_descriptor(handle: &UsbHandle) -> (r: Result<rusb::DeviceDescriptor, rusb::Error>) {
    handle.handle.device().device_descriptor()
}

/// Relies on rusb::DeviceHandle::read_manufacturer_string_ascii: the
/// manufacturer string of the device.
#[verifier::external_body]
fn usb_read_manufacturer(handle: &UsbHandle, desc: &rusb::DeviceDescriptor) -> (r: Result<
    String,
    rusb::Error,
>) {
    handle.handle.read_manufacturer_string_ascii(desc)
}

/// Relies on rusb::DeviceHandle::read_product_string_ascii: the product
/// string of the device.
#[verifier::external_body]
fn usb_read_product(handle: &UsbHandle, desc: &rusb::DeviceDescriptor) -> (r: Result<
    String,
    rusb::Error,
>) {
    handle.handle.read_product_string_ascii(desc)
}

/// A prefix of one sequence of events in another carries over to any longer
/// sequence the second is a prefix of.
pub proof fn lemma_prefix_trans(a: Seq<UsbEvent>, b: Seq<UsbEvent>, c: Seq<UsbEvent>)
    requires
        a.is_prefix_of(b),
        b.is_prefix_of(c),
    ensures
        a.is_prefix_of(c),
{
    assert forall|i: int| 0 <= i < a.len() implies a[i] == c.subrange(0, a.len() as int)[i] by {
        assert(a[i] == b.subrange(0, a.len() as int)[i]);
        assert(b[i] == c.subrange(0, b.len() as int)[i]);
    }
    assert(a =~= c.subrange(0, a.len() as int));
}

/// The trace a chunked SPI write leaves behind: each chunk of at most
/// `MAX_DATA_LEN` payload bytes is wrapped in a write-opcode packet and sent,
/// and after each chunk one acknowledgement packet is read back before the
/// next chunk goes out.
pub open spec fn is_write_trace(data: Seq<u8>, ev: Seq<UsbEvent>) -> bool
    decreases data.len(),
{
    if data.len() == 0 {
        ev.len() == 0
    } else {
        let c: int = if data.len() <= 507 {
            data.len() as int
        } else {
            507
        };
        &&& ev.len() >= 2
        &&& ev[0] == (UsbEvent::Out { sent: write_packet(data.take(c)) })
        &&& ev[1] is In
        &&& is_write_trace(data.skip(c), ev.skip(2))
    }
}

/// A chunked SPI write of a payload longer than one packet sends chunks of
/// exactly `MAX_DATA_LEN` bytes except the final remainder chunk, one
/// write-opcode packet and one acknowledgement read per chunk: the trace
/// consists of one Out/In event pair per entry of `wchunks`, and each Out
/// packet holds the three-byte header plus that entry's chunk.
pub proof fn lemma_write_trace_shape(data: Seq<u8>, ev: Seq<UsbEvent>)
    requires
        is_write_trace(data, ev),
    ensures
        ev.len() == 2 * wchunks(data.len()).len(),
        forall|i: int|
            0 <= i < wchunks(data.len()).len() ==> event_bytes(#[trigger] ev[2 * i]).len() == 3
                + wchunks(data.len())[i] && ev[2 * i] is Out && ev[2 * i + 1] is In,
    decreases data.len(),
{
    let n = data.len();
    if n == 0 {
        assert(wchunks(0) =~= Seq::<nat>::empty());
    } else {
        let c: int = if n <= 507 { n as int } else { 507 };
        lemma_write_trace_shape(data.skip(c), ev.skip(2));
        let rest = wchunks(data.skip(c).len());
        assert(wchunks(n) =~= seq![c as nat] + rest);
        assert forall|i: int| 0 <= i < wchunks(n).len() implies event_bytes(
            #[trigger] ev[2 * i],
        ).len() == 3 + wchunks(n)[i] && ev[2 * i] is Out && ev[2 * i + 1] is In by {
            if i == 0 {
                assert(event_bytes(ev[0]) == write_packet(data.take(c)));
            } else {
                assert(ev.skip(2)[2 * (i - 1)] == ev[2 * i]);
                assert(ev.skip(2)[2 * (i - 1) + 1] == ev[2 * i + 1]);
                assert(event_bytes(ev.skip(2)[2 * (i - 1)]).len() == 3 + rest[i - 1]);
                assert(wchunks(n)[i] == rest[i - 1]);
            }
        }
    }
}

/// The payload length a chunked-read packet header declares.
pub open spec fn declared_len(bs: Seq<u8>) -> int {
    bs[1] + 256 * bs[2]
}

/// A chunked-read response packet is well formed when the bytes actually
/// transferred cover its three-byte header and the full payload the header
/// declares, and the declared payload is not empty (an empty one would make
/// no progress towards the requested total).
pub open spec fn packet_wf(bs: Seq<u8>) -> bool {
    &&& bs.len() >= 3
    &&& declared_len(bs) > 0
    &&& 3 + declared_len(bs) <= bs.len()
}

/// The trace the response phase of a chunked read leaves behind, consuming
/// from cursor `pos` towards the requested total `count`: packets arrive, and
/// each is consumed — advancing the cursor by its declared length — only
/// while the cursor is still below the requested total.
pub open spec fn read_events_ok(ev: Seq<UsbEvent>, pos: int, count: int) -> bool
    decreases ev.len(),
{
    if ev.len() == 0 {
        pos >= count
    } else {
        &&& pos < count
        &&& ev[0] is In
        &&& packet_wf(event_bytes(ev[0]))
        &&& read_events_ok(ev.drop_first(), pos + declared_len(event_bytes(ev[0])), count)
    }
}

/// The sum of the declared lengths of a sequence of response packets.
pub open spec fn sum_declared(ev: Seq<UsbEvent>) -> int
    decreases ev.len(),
{
    if ev.len() == 0 {
        0
    } else {
        declared_len(event_bytes(ev[0])) + sum_declared(ev.drop_first())
    }
}

/// The number of bytes a chunked read copies into its output buffer from a
/// sequence of response packets, consuming from cursor `pos` towards the
/// requested total `count`: each packet contributes its declared length,
/// clipped to what is still owed.
pub open spec fn sum_copied(ev: Seq<UsbEvent>, pos: int, count: int) -> int
    decreases ev.len(),
{
    if ev.len() == 0 {
        0
    } else {
        let d = declared_len(event_bytes(ev[0]));
        let c = if d <= count - pos {
            d
        } else {
            count - pos
        };
        c + sum_copied(ev.drop_first(), pos + d, count)
    }
}

/// Every response packet of a chunked read is consumed only while the sum of
/// the declared lengths consumed before it is still below the requested
/// total.
pub proof fn lemma_read_consumed_below_total(ev: Seq<UsbEvent>, pos: int, count: int)
    requires
        read_events_ok(ev, pos, count),
    ensures
        forall|i: int| 0 <= i < ev.len() ==> pos + sum_declared(#[trigger] ev.take(i)) < count,
    decreases ev.len(),
{
    if ev.len() > 0 {
        let d = declared_len(event_bytes(ev[0]));
        lemma_read_consumed_below_total(ev.drop_first(), pos + d, count);
        assert forall|i: int| 0 <= i < ev.len() implies pos + sum_declared(#[trigger] ev.take(i))
            < count by {
            if i == 0 {
                assert(ev.take(0) =~= Seq::<UsbEvent>::empty());
            } else {
                assert(ev.take(i).drop_first() =~= ev.drop_first().take(i - 1));
                assert(ev.take(i)[0] == ev[0]);
                assert(sum_declared(ev.take(i)) == d + sum_declared(ev.drop_first().take(i - 1)));
            }
        }
    }
}

/// What a chunked read copies into its output buffer never exceeds the bytes
/// still owed: of each packet it consumes only up to the remaining request.
pub proof fn lemma_read_copied_bounded(ev: Seq<UsbEvent>, pos: int, count: int)
    requires
        read_events_ok(ev, pos, count),
        pos <= count,
    ensures
        0 <= sum_copied(ev, pos, count) <= count - pos,
    decreases ev.len(),
{
    if ev.len() > 0 {
        let d = declared_len(event_bytes(ev[0]));
        if pos + d <= count {
            lemma_read_copied_bounded(ev.drop_first(), pos + d, count);
        } else {
            let rest = ev.drop_first();
            assert(read_events_ok(rest, pos + d, count));
            if rest.len() > 0 {
                assert(pos + d < count);
            }
            assert(sum_copied(rest, pos + d, count) == 0);
        }
    }
}

impl Ch347Device {
    /// Configure the SPI session: send the fixed configuration packet for the
    /// chosen clock divisor and read back the acknowledgement. On success the
    /// session counts as initialized; until then every SPI transfer fails.
    pub fn spi_init(&mut self, clock: SpiClock) -> (r: Result<(), Ch347Error>)
        ensures
            final(self).iface() == old(self).iface(),
            old(self).trace().is_prefix_of(final(self).trace()),
            r is Ok ==> final(self).initialized(),
            r is Ok ==> final(self).trace().len() == old(self).trace().len() + 2
                && final(self).trace()[old(self).trace().len() as int] == (UsbEvent::Out {
                sent: config_packet(clock),
            }) && final(self).trace()[old(self).trace().len() as int + 1] is In,
            r is Err ==> final(self).initialized() == old(self).initialized(),
            r is Err ==> r matches Err(Ch347Error::Usb(_)),
    {
        let pkt = make_config_packet(clock);
        match self.bulk_out(&pkt) {
            Ok(_) => {},
            Err(e) => {
                proof {
                    assert(old(self).trace().is_prefix_of(self.trace()));
                }
                return Err(Ch347Error::Usb(e));
            },
        }
        let mut resp: Vec<u8> = vec![0u8; 29];
        match self.bulk_in(&mut resp) {
            Ok(_) => {},
            Err(e) => {
                proof {
                    assert(old(self).trace().is_prefix_of(self.trace()));
                }
                return Err(Ch347Error::Usb(e));
            },
        }
        self.spi_initialized = true;
        proof {
            assert(old(self).trace().is_prefix_of(self.trace()));
        }
        Ok(())
    }

    /// Drive the chip-select line: send the chip-select packet; no
    /// acknowledgement is read.
    pub fn spi_cs(&mut self, active: bool) -> (r: Result<(), Ch347Error>)
        ensures
            final(self).iface() == old(self).iface(),
            final(self).initialized() == old(self).initialized(),
            final(self).trace() == old(self).trace().push(UsbEvent::Out { sent: cs_packet(active) }),
            r is Err ==> r matches Err(Ch347Error::Usb(_)),
    {
        let pkt = make_cs_packet(active);
        match self.bulk_out(&pkt) {
            Ok(_) => Ok(()),
            Err(e) => Err(Ch347Error::Usb(e)),
        }
    }

    /// SPI write: split the payload into chunks of at most `MAX_DATA_LEN`
    /// bytes, wrap each in a write-opcode packet, and read one
    /// acknowledgement packet after each chunk. Fails without touching the
    /// bus if the session was never configured.
    pub fn spi_write(&mut self, data: &[u8]) -> (r: Result<(), Ch347Error>)
        ensures
            final(self).iface() == old(self).iface(),
            final(self).initialized() == old(self).initialized(),
            old(self).trace().is_prefix_of(final(self).trace()),
            !old(self).initialized() ==> (r matches Err(Ch347Error::SpiNotInitialized))
                && final(self).trace() == old(self).trace(),
            old(self).initialized() && r is Ok ==> is_write_trace(
                data@,
                final(self).trace().skip(old(self).trace().len() as int),
            ),
            old(self).initialized() && data@.len() == 0 ==> r is Ok && final(self).trace() == old(
                self,
            ).trace(),
            r is Err && old(self).initialized() ==> r matches Err(Ch347Error::Usb(_)),
    {
        if !self.spi_initialized {
            proof {
                assert(old(self).trace().is_prefix_of(self.trace()));
            }
            return Err(Ch347Error::SpiNotInitialized);
        }
        let r = self.write_chunks(data, 0);
        proof {
            assert(data@.skip(0) =~= data@);
        }
        r
    }

    /// Send the chunks of `data` from `offset` on, reading one
    /// acknowledgement per chunk.
    fn write_chunks(&mut self, data: &[u8], offset: usize) -> (r: Result<(), Ch347Error>)
        requires
            offset <= data@.len(),
        ensures
            final(self).iface() == old(self).iface(),
            final(self).initialized() == old(self).initialized(),
            old(self).trace().is_prefix_of(final(self).trace()),
            r is Ok ==> is_write_trace(
                data@.skip(offset as int),
                final(self).trace().skip(old(self).trace().len() as int),
            ),
            offset == data@.len() ==> r is Ok && final(self).trace() == old(self).trace(),
            r is Err ==> r matches Err(Ch347Error::Usb(_)),
        decreases data@.len() - offset,
    {
        let len = data.len();
        if offset == len {
            proof {
                assert(data@.skip(offset as int) =~= Seq::<u8>::empty());
                assert(self.trace().skip(self.trace().len() as int) =~= Seq::<UsbEvent>::empty());
                assert(self.trace().is_prefix_of(self.trace()));
            }
            return Ok(());
        }
        let c = write_chunk_len(len, offset);
        let pkt = make_write_packet(data, offset, c);
        match self.bulk_out(&pkt) {
            Ok(_) => {},
            Err(e) => {
                proof {
                    assert(old(self).trace().is_prefix_of(self.trace()));
                }
                return Err(Ch347Error::Usb(e));
            },
        }
        let mut ack: Vec<u8> = vec![0u8; 4];
        match self.bulk_in(&mut ack) {
            Ok(_) => {},
            Err(e) => {
                proof {
                    lemma_prefix_trans(old(self).trace(), self.trace().take(self.trace().len() - 1), self.trace());
                    assert(old(self).trace().is_prefix_of(self.trace()));
                }
                return Err(Ch347Error::Usb(e));
            },
        }
        let ghost t0 = old(self).trace();
        let ghost t2 = self.trace();
        let r = self.write_chunks(data, offset + c);
        proof {
            assert(t0.is_prefix_of(t2));
            lemma_prefix_trans(t0, t2, self.trace());
            if r is Ok {
                let tfinal = self.trace();
                let ev = tfinal.skip(t0.len() as int);
                let rest = data@.skip(offset as int).skip(c as int);
                assert(rest =~= data@.skip(offset + c));
                assert(t2.len() == t0.len() + 2);
                assert(ev.len() >= 2);
                assert(ev[0] == tfinal[t0.len() as int]);
                assert(tfinal[t0.len() as int] == t2[t0.len() as int]);
                assert(ev[1] == tfinal[t0.len() as int + 1]);
                assert(tfinal[t0.len() as int + 1] == t2[t0.len() as int + 1]);
                assert(data@.skip(offset as int).take(c as int) =~= data@.subrange(
                    offset as int,
                    offset + c,
                ));
                assert(ev.skip(2) =~= tfinal.skip(t2.len() as int));
                assert(is_write_trace(data@.skip(offset as int), ev));
            }
        }
        r
    }

    /// One step of a chunked read: validate one response packet of
    /// `transferred` bytes against its declared header length, copy up to the
    /// bytes still owed into `out` at the cursor, and advance the cursor by
    /// the declared length. A packet whose transferred byte count does not
    /// cover its header and declared payload, or whose declared payload is
    /// empty, is rejected as an invalid response and leaves `out` unchanged.
    pub fn read_step(out: &mut Vec<u8>, pos: usize, pkt: &Vec<u8>, transferred: usize) -> (r:
        Result<usize, Ch347Error>)
        requires
            pos < old(out)@.len(),
            transferred <= pkt@.len(),
            old(out)@.len() + 65536 <= usize::MAX,
        ensures
            final(out)@.len() == old(out)@.len(),
            match r {
                Ok(newpos) => {
                    &&& packet_wf(pkt@.take(transferred as int))
                    &&& newpos == pos + declared_len(pkt@.take(transferred as int))
                    &&& newpos > pos
                    &&& forall|j: int|
                        0 <= j < old(out)@.len() ==> final(out)@[j] == if pos <= j < pos + copy_len(
                            pkt@.take(transferred as int),
                            pos as int,
                            old(out)@.len() as int,
                        ) {
                            pkt@[3 + (j - pos)]
                        } else {
                            old(out)@[j]
                        }
                },
                Err(e) => e is InvalidResponse && final(out)@ == old(out)@ && !packet_wf(
                    pkt@.take(transferred as int),
                ),
            },
    {
        if transferred < 3 {
            return Err(Ch347Error::InvalidResponse);
        }
        let d: usize = pkt[1] as usize + 256 * (pkt[2] as usize);
        proof {
            assert(pkt@.take(transferred as int)[1] == pkt@[1]);
            assert(pkt@.take(transferred as int)[2] == pkt@[2]);
        }
        if d == 0 {
            return Err(Ch347Error::InvalidResponse);
        }
        if 3 + d > transferred {
            return Err(Ch347Error::InvalidResponse);
        }
        let count = out.len();
        let copy: usize = if d < count - pos {
            d
        } else {
            count - pos
        };
        let mut j: usize = 0;
        while j < copy
            invariant
                j <= copy,
                copy == copy_len(pkt@.take(transferred as int), pos as int, count as int),
                pos + copy <= count,
                3 + copy <= transferred <= pkt@.len(),
                count == old(out)@.len(),
                out@.len() == count,
                forall|k: int|
                    0 <= k < count ==> out@[k] == if pos <= k < pos + j {
                        pkt@[3 + (k - pos)]
                    } else {
                        old(out)@[k]
                    },
            decreases copy - j,
        {
            out[pos + j] = pkt[3 + j];
            j = j + 1;
        }
        Ok(pos + d)
    }

    /// SPI read: send the read command carrying the requested total, then
    /// consume response packets until the requested total is reached,
    /// validating each packet's declared header length against the bytes that
    /// actually arrived. Fails without touching the bus if the session was
    /// never configured.
    pub fn spi_read(&mut self, data: &mut Vec<u8>) -> (r: Result<(), Ch347Error>)
        requires
            old(data)@.len() <= 0xFFFF_FFFF,
            old(data)@.len() + 65536 <= usize::MAX,
        ensures
            final(self).iface() == old(self).iface(),
            final(self).initialized() == old(self).initialized(),
            old(self).trace().is_prefix_of(final(self).trace()),
            final(data)@.len() == old(data)@.len(),
            !old(self).initialized() ==> (r matches Err(Ch347Error::SpiNotInitialized))
                && final(self).trace() == old(self).trace() && final(data)@ == old(data)@,
            old(self).initialized() && r is Ok ==> final(self).trace().len() > old(
                self,
            ).trace().len() && final(self).trace()[old(self).trace().len() as int] == (UsbEvent::Out {
                sent: read_cmd_packet(old(data)@.len() as nat),
            }) && read_events_ok(
                final(self).trace().skip(old(self).trace().len() as int + 1),
                0,
                old(data)@.len() as int,
            ),
            old(self).initialized() && r is Ok ==> final(data)@ == read_assembled(
                old(data)@,
                final(self).trace().skip(old(self).trace().len() as int + 1),
                0,
            ),
            r is Err ==> (r matches Err(Ch347Error::Usb(_))) || (r matches Err(
                Ch347Error::SpiNotInitialized,
            )) || (r matches Err(Ch347Error::InvalidResponse)),
    {
        if !self.spi_initialized {
            proof {
                assert(old(self).trace().is_prefix_of(self.trace()));
            }
            return Err(Ch347Error::SpiNotInitialized);
        }
        let cmd = make_read_cmd_packet(data.len());
        match self.bulk_out(&cmd) {
            Ok(_) => {},
            Err(e) => {
                proof {
                    assert(old(self).trace().is_prefix_of(self.trace()));
                }
                return Err(Ch347Error::Usb(e));
            },
        }
        let ghost t1 = self.trace();
        let r = self.read_packets(data, 0);
        proof {
            assert(old(self).trace().is_prefix_of(t1));
            lemma_prefix_trans(old(self).trace(), t1, self.trace());
            if r is Ok {
                assert(self.trace()[old(self).trace().len() as int] == t1[old(
                    self,
                ).trace().len() as int]);
                assert(self.trace().skip(old(self).trace().len() as int + 1) =~= self.trace().skip(
                    t1.len() as int,
                ));
            }
        }
        r
    }

    /// Consume response packets from cursor `pos` until the requested total
    /// (the length of `data`) is reached.
    fn read_packets(&mut self, data: &mut Vec<u8>, pos: usize) -> (r: Result<(), Ch347Error>)
        requires
            old(data)@.len() + 65536 <= usize::MAX,
        ensures
            final(self).iface() == old(self).iface(),
            final(self).initialized() == old(self).initialized(),
            old(self).trace().is_prefix_of(final(self).trace()),
            final(data)@.len() == old(data)@.len(),
            r is Ok ==> read_events_ok(
                final(self).trace().skip(old(self).trace().len() as int),
                pos as int,
                old(data)@.len() as int,
            ),
            r is Ok ==> final(data)@ == read_assembled(
                old(data)@,
                final(self).trace().skip(old(self).trace().len() as int),
                pos as int,
            ),
            r is Err ==> (r matches Err(Ch347Error::Usb(_))) || (r matches Err(
                Ch347Error::InvalidResponse,
            )),
        decreases
            (if pos as int >= old(data)@.len() {
                0int
            } else {
                old(data)@.len() - pos
            }),
    {
        let count = data.len();
        if pos >= count {
            proof {
                assert(self.trace().skip(self.trace().len() as int) =~= Seq::<UsbEvent>::empty());
                assert(self.trace().is_prefix_of(self.trace()));
            }
            return Ok(());
        }
        let mut scratch: Vec<u8> = vec![0u8; PACKET_SIZE];
        let n = match self.bulk_in(&mut scratch) {
            Ok(n) => n,
            Err(e) => {
                proof {
                    assert(old(self).trace().is_prefix_of(self.trace()));
                }
                return Err(Ch347Error::Usb(e));
            },
        };
        let newpos = match Self::read_step(data, pos, &scratch, n) {
            Ok(p) => p,
            Err(e) => {
                proof {
                    assert(old(self).trace().is_prefix_of(self.trace()));
                }
                return Err(e);
            },
        };
        let ghost t0 = old(self).trace();
        let ghost t1 = self.trace();
        let ghost packet = scratch@.take(n as int);
        let ghost dmid = data@;
        proof {
            assert(dmid =~= splice_packet(old(data)@, packet, pos as int));
        }
        let r = self.read_packets(data, newpos);
        proof {
            assert(t0.is_prefix_of(t1));
            lemma_prefix_trans(t0, t1, self.trace());
            if r is Ok {
                let tfinal = self.trace();
                let ev = tfinal.skip(t0.len() as int);
                assert(t1.len() == t0.len() + 1);
                assert(ev.len() >= 1);
                assert(ev[0] == tfinal[t0.len() as int]);
                assert(tfinal[t0.len() as int] == t1[t0.len() as int]);
                assert(event_bytes(ev[0]) == packet);
                assert(ev.drop_first() =~= tfinal.skip(t1.len() as int));
                assert(read_events_ok(ev, pos as int, count as int));
                assert(newpos == pos + declared_len(packet));
                assert(read_assembled(old(data)@, ev, pos as int) == read_assembled(
                    dmid,
                    ev.drop_first(),
                    newpos as int,
                ));
                assert(data@ == read_assembled(dmid, tfinal.skip(t1.len() as int), newpos as int));
            }
        }
        r
    }

    /// The composite transfer every flash command uses: assert CS, write the
    /// command bytes if any, read the response bytes if any, and deassert CS.
    /// CS is deasserted on the way out even when a payload phase fails.
    pub fn spi_transfer(&mut self, write_data: &[u8], read_data: &mut Vec<u8>) -> (r: Result<
        (),
        Ch347Error,
    >)
        requires
            old(read_data)@.len() <= 0xFFFF_FFFF,
            old(read_data)@.len() + 65536 <= usize::MAX,
        ensures
            final(self).iface() == old(self).iface(),
            final(self).initialized() == old(self).initialized(),
            old(self).trace().is_prefix_of(final(self).trace()),
            final(read_data)@.len() == old(read_data)@.len(),
            !old(self).initialized() && (write_data@.len() > 0 || old(read_data)@.len() > 0)
                ==> (r matches Err(Ch347Error::SpiNotInitialized)) || (r matches Err(
                Ch347Error::Usb(_),
            )),
            r is Ok ==> is_transfer_trace(
                write_data@,
                old(read_data)@.len() as int,
                final(self).trace().skip(old(self).trace().len() as int),
            ),
            r is Ok && old(read_data)@.len() > 0 ==> reply_events_in(
                final(self).trace(),
                old(self).trace().len() as int,
                old(read_data)@,
                final(read_data)@,
            ),
            r is Err ==> (r matches Err(Ch347Error::Usb(_))) || (r matches Err(
                Ch347Error::SpiNotInitialized,
            )) || (r matches Err(Ch347Error::InvalidResponse)),
            r is Err ==> final(self).trace().len() > old(self).trace().len(),
            r is Err ==> final(self).trace()[old(self).trace().len() as int] == (UsbEvent::Out {
                sent: cs_packet(true),
            }),
            r is Err ==> final(self).trace().len() == old(self).trace().len() + 1
                || final(self).trace().last() == (UsbEvent::Out { sent: cs_packet(false) }),
    {
        match self.spi_cs(true) {
            Ok(_) => {},
            Err(e) => { return Err(e); },
        }
        let ghost t1 = self.trace();
        if write_data.len() > 0 {
            match self.spi_write(write_data) {
                Ok(_) => {},
                Err(e) => {
                    let ghost tw = self.trace();
                    let _ = self.spi_cs(false);
                    proof {
                        lemma_prefix_trans(old(self).trace(), t1, self.trace());
                        assert(self.trace()[old(self).trace().len() as int] == t1[old(
                            self,
                        ).trace().len() as int]);
                    }
                    return Err(e);
                },
            }
        }
        let ghost t2 = self.trace();
        if read_data.len() > 0 {
            match self.spi_read(read_data) {
                Ok(_) => {},
                Err(e) => {
                    let ghost tr_phase = self.trace();
                    let _ = self.spi_cs(false);
                    proof {
                        lemma_prefix_trans(old(self).trace(), t1, t2);
                        lemma_prefix_trans(old(self).trace(), t2, tr_phase);
                        lemma_prefix_trans(old(self).trace(), tr_phase, self.trace());
                        assert(self.trace()[old(self).trace().len() as int] == t1[old(
                            self,
                        ).trace().len() as int]);
                    }
                    return Err(e);
                },
            }
        }
        let ghost t3 = self.trace();
        match self.spi_cs(false) {
            Ok(_) => {},
            Err(e) => {
                proof {
                    lemma_prefix_trans(old(self).trace(), t1, t2);
                    lemma_prefix_trans(old(self).trace(), t2, t3);
                    lemma_prefix_trans(old(self).trace(), t3, self.trace());
                    assert(self.trace()[old(self).trace().len() as int] == t1[old(
                        self,
                    ).trace().len() as int]);
                }
                return Err(e);
            },
        }
        proof {
            let t0 = old(self).trace();
            let tfinal = self.trace();
            lemma_prefix_trans(t0, t1, t2);
            lemma_prefix_trans(t0, t2, t3);
            lemma_prefix_trans(t0, t3, tfinal);
            let ev = tfinal.skip(t0.len() as int);
            let wlen = t2.len() - t1.len();
            assert(ev[0] == tfinal[t0.len() as int]);
            assert(tfinal[t0.len() as int] == t1[t0.len() as int]);
            assert(ev.last() == (UsbEvent::Out { sent: cs_packet(false) }));
            let body = ev.subrange(1, ev.len() - 1);
            assert(body.take(wlen) =~= t2.skip(t1.len() as int)) by {
                assert forall|k: int| 0 <= k < wlen implies body.take(wlen)[k] == t2.skip(
                    t1.len() as int,
                )[k] by {
                    assert(body.take(wlen)[k] == tfinal[t0.len() + 1 + k]);
                    assert(tfinal[t0.len() + 1 + k] == t2[t0.len() + 1 + k]);
                }
            }
            assert(body.skip(wlen) =~= t3.skip(t2.len() as int)) by {
                assert forall|k: int| 0 <= k < body.skip(wlen).len() implies body.skip(wlen)[k]
                    == t3.skip(t2.len() as int)[k] by {
                    assert(body.skip(wlen)[k] == tfinal[t2.len() + k]);
                    assert(tfinal[t2.len() + k] == t3[t2.len() + k]);
                }
            }
            if write_data@.len() == 0 {
                assert(wlen == 0);
            }
            if old(read_data)@.len() == 0 {
                assert(t3 == t2);
                assert(body.skip(wlen).len() == 0);
            } else {
                assert(body.skip(wlen)[0] == t3[t2.len() as int]);
                assert(body.skip(wlen).drop_first() =~= t3.skip(t2.len() as int + 1));
            }
            assert(is_transfer_trace(write_data@, old(read_data)@.len() as int, ev));
            if old(read_data)@.len() > 0 {
                lemma_prefix_segment(t2.len() as int + 1, t3, tfinal);
                assert(t3.skip(t2.len() as int + 1) =~= tfinal.subrange(
                    t2.len() as int + 1,
                    t3.len() as int,
                ));
                assert(tfinal[t2.len() as int] == t3[t2.len() as int]);
                assert(read_events_ok(
                    tfinal.subrange(t2.len() as int + 1, t3.len() as int),
                    0,
                    old(read_data)@.len() as int,
                ));
                assert(read_data@ == read_assembled(
                    old(read_data)@,
                    tfinal.subrange(t2.len() as int + 1, t3.len() as int),
                    0,
                ));
                assert(reply_events_in(tfinal, t0.len() as int, old(read_data)@, read_data@));
            }
        }
        Ok(())
    }
}

/// How much of a response packet's declared payload a chunked read copies
/// out: the declared length, clipped to what is still owed of the requested
/// total.
pub open spec fn copy_len(bs: Seq<u8>, pos: int, count: int) -> int {
    if declared_len(bs) <= count - pos {
        declared_len(bs)
    } else {
        count - pos
    }
}

/// The buffer after one response packet's payload has been written into it at
/// the cursor, clipped to the buffer's end.
pub open spec fn splice_packet(buf: Seq<u8>, bs: Seq<u8>, pos: int) -> Seq<u8> {
    Seq::new(
        buf.len(),
        |j: int|
            if pos <= j < pos + copy_len(bs, pos, buf.len() as int) {
                bs[3 + (j - pos)]
            } else {
                buf[j]
            },
    )
}

/// The output buffer after the response packets of a chunked read have been
/// consumed from cursor `pos`: each packet's declared payload lands at the
/// cursor, clipped to the buffer's end, and the cursor advances by the
/// declared length.
pub open spec fn read_assembled(buf: Seq<u8>, ev: Seq<UsbEvent>, pos: int) -> Seq<u8>
    decreases ev.len(),
{
    if ev.len() == 0 {
        buf
    } else {
        let bs = event_bytes(ev[0]);
        read_assembled(splice_packet(buf, bs, pos), ev.drop_first(), pos + declared_len(bs))
    }
}

/// A prefix's tail is a segment of any longer sequence it is a prefix of.
pub proof fn lemma_prefix_segment(from: int, b: Seq<UsbEvent>, c: Seq<UsbEvent>)
    requires
        0 <= from <= b.len(),
        b.is_prefix_of(c),
    ensures
        b.skip(from) =~= c.subrange(from, b.len() as int),
{
    assert forall|i: int| 0 <= i < b.len() - from implies b.skip(from)[i] == c.subrange(
        from,
        b.len() as int,
    )[i] by {
        assert(b[from + i] == c.subrange(0, b.len() as int)[from + i]);
    }
}

/// The trace from `from` on holds one complete composite transfer that wrote
/// `wd` and requested `rcount` bytes.
pub open spec fn trace_has_transfer(tr: Seq<UsbEvent>, from: int, wd: Seq<u8>, rcount: int) -> bool {
    exists|a: int, b: int|
        from <= a <= b <= tr.len() && is_transfer_trace(wd, rcount, #[trigger] tr.subrange(a, b))
}

/// The trace from `from` on holds one complete chunked write of `wd`.
pub open spec fn trace_has_write(tr: Seq<UsbEvent>, from: int, wd: Seq<u8>) -> bool {
    exists|a: int, b: int|
        from <= a <= b <= tr.len() && is_write_trace(wd, #[trigger] tr.subrange(a, b))
}

/// The trace from `from` on holds the read phase of one transfer: the read
/// command asking for `din.len()` bytes, followed immediately by validated
/// response packets that assemble `din` into `dout`.
pub open spec fn reply_events_in(tr: Seq<UsbEvent>, from: int, din: Seq<u8>, dout: Seq<u8>) -> bool {
    exists|a: int, b: int|
        #![trigger tr.subrange(a + 1, b)]
        {
            &&& from <= a
            &&& a + 1 <= b <= tr.len()
            &&& tr[a] == (UsbEvent::Out { sent: read_cmd_packet(din.len()) })
            &&& read_events_ok(tr.subrange(a + 1, b), 0, din.len() as int)
            &&& dout == read_assembled(din, tr.subrange(a + 1, b), 0)
        }
}

/// A transfer found after `from2` is also found after any earlier `from`.
pub proof fn lemma_has_transfer_widen(
    tr: Seq<UsbEvent>,
    from: int,
    from2: int,
    wd: Seq<u8>,
    rcount: int,
)
    requires
        trace_has_transfer(tr, from2, wd, rcount),
        from <= from2,
    ensures
        trace_has_transfer(tr, from, wd, rcount),
{
}

/// A transfer in a trace still stands in any extension of it.
pub proof fn lemma_has_transfer_extend(
    tr1: Seq<UsbEvent>,
    tr2: Seq<UsbEvent>,
    from: int,
    wd: Seq<u8>,
    rcount: int,
)
    requires
        0 <= from,
        trace_has_transfer(tr1, from, wd, rcount),
        tr1.is_prefix_of(tr2),
    ensures
        trace_has_transfer(tr2, from, wd, rcount),
{
    assert forall|a: int, b: int|
        from <= a <= b <= tr1.len() && is_transfer_trace(
            wd,
            rcount,
            #[trigger] tr1.subrange(a, b),
        ) implies 0 <= a <= b <= tr2.len() && is_transfer_trace(
        wd,
        rcount,
        tr2.subrange(a, b),
    ) by {
        assert forall|k: int| #![trigger tr2.subrange(a, b)[k]] 0 <= k < b - a implies tr2.subrange(
            a,
            b,
        )[k] == tr1.subrange(a, b)[k] by {
            assert(tr1[a + k] == tr2.subrange(0, tr1.len() as int)[a + k]);
        }
        assert(tr2.subrange(a, b) =~= tr1.subrange(a, b));
    }
}

/// A reply found after `from2` is also found after any earlier `from`.
pub proof fn lemma_reply_events_widen(
    tr: Seq<UsbEvent>,
    from: int,
    from2: int,
    din: Seq<u8>,
    dout: Seq<u8>,
)
    requires
        reply_events_in(tr, from2, din, dout),
        from <= from2,
    ensures
        reply_events_in(tr, from, din, dout),
{
}

/// The trace one composite transfer leaves behind: a CS assert, the chunked
/// write of the command bytes if any, the read command and its validated
/// response packets if any bytes were requested, and a CS deassert.
pub open spec fn is_transfer_trace(wd: Seq<u8>, rcount: int, ev: Seq<UsbEvent>) -> bool {
    &&& ev.len() >= 2
    &&& ev[0] == (UsbEvent::Out { sent: cs_packet(true) })
    &&& ev.last() == (UsbEvent::Out { sent: cs_packet(false) })
    &&& exists|wlen: int|
        #![trigger ev.subrange(1, ev.len() - 1).take(wlen)]
        {
            let body = ev.subrange(1, ev.len() - 1);
            &&& 0 <= wlen <= body.len()
            &&& if wd.len() == 0 {
                wlen == 0
            } else {
                is_write_trace(wd, body.take(wlen))
            }
            &&& if rcount == 0 {
                body.skip(wlen).len() == 0
            } else {
                &&& body.skip(wlen).len() >= 1
                &&& body.skip(wlen)[0] == (UsbEvent::Out { sent: read_cmd_packet(rcount as nat) })
                &&& read_events_ok(body.skip(wlen).drop_first(), 0, rcount)
            }
        }
}

} // verus!
