//! Host-side driver for the Texas Instruments Serial Bootloader Interface
//! found on the CC2538, CC26x0/CC13x0 and CC26x2/CC13x2 families.
//!
//! The library frames bootloader commands, hunts for acknowledgements,
//! issues the command set of each chip family and composes it into the
//! flash erase and write workflows. Every exchange goes through a
//! [`Transport`] supplied by the caller.

pub mod boot;
pub mod constants;
pub mod device;
pub mod family;
pub mod flash;
pub mod frame;
pub mod ports;
pub mod text;
pub mod transport;
pub mod util;

pub use self::device::{Device, Error};
pub use self::family::{Family, ParseFamilyError};
pub use self::frame::command_checksum;
pub use self::transport::{Transport, TransportError};
