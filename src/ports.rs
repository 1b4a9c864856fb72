//! What is known of a serial port that sits on USB.

use vstd::prelude::*;

verus! {

/// Information about a USB serial port.
#[derive(Debug, Clone)]
pub struct PortUsbInfo {
    /// Number of interfaces of the device.
    pub num_if: usize,
    /// USB vendor ID.
    pub vid: u16,
    /// USB product ID.
    pub pid: u16,
    /// Serial number string.
    pub serial: Option<String>,
    /// Device manufacturer.
    pub manufacturer: Option<String>,
    /// Device product description.
    pub product: Option<String>,
    /// Device product interface.
    pub interface: Option<String>,
}

} // verus!
