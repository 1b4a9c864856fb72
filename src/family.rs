//! Chip families and what each one supports.

use vstd::prelude::*;
use vstd::string::*;

verus! {

/// The kind of bootloader a chip carries.
#[derive(Debug, Clone, Copy, PartialEq, Eq, Structural)]
pub enum Family {
    /// CC2538 microcontrollers.
    CC2538,
    /// CC26x0 and CC13x0 microcontrollers.
    CC26X0,
    /// CC26x2 and CC13x2 microcontrollers.
    CC26X2,
}

impl Family {
    pub open spec fn is_cc2538(self) -> bool {
        self == Family::CC2538
    }

    pub open spec fn spec_sector_size(&self) -> u32 {
        match *self {
            Family::CC2538 => 2048,
            Family::CC26X0 => 4092,
            Family::CC26X2 => 8192,
        }
    }

    pub open spec fn spec_flash_base(&self) -> u32 {
        match *self {
            Family::CC2538 => 0x00200000,
            Family::CC26X0 | Family::CC26X2 => 0x00000000,
        }
    }

    pub open spec fn spec_supports_erase(&self) -> bool {
        *self == Family::CC2538
    }

    pub open spec fn spec_supports_sector_erase(&self) -> bool {
        *self == Family::CC26X0 || *self == Family::CC26X2
    }

    pub open spec fn spec_supports_set_xosc(&self) -> bool {
        *self == Family::CC2538
    }

    /// Whether the chip takes `COMMAND_RUN` (only [`Family::CC2538`]).
    pub fn supports_run(&self) -> (r: bool)
        ensures
            r == (*self == Family::CC2538),
    {
        matches!(*self, Family::CC2538)
    }

    /// Whether the chip takes `COMMAND_ERASE` (only [`Family::CC2538`]).
    #[verifier::when_used_as_spec(spec_supports_erase)]
    pub fn supports_erase(&self) -> (r: bool)
        ensures
            r == self.spec_supports_erase(),
    {
        matches!(*self, Family::CC2538)
    }

    /// Whether the chip takes `COMMAND_SECTOR_ERASE` ([`Family::CC26X0`] and
    /// [`Family::CC26X2`]).
    #[verifier::when_used_as_spec(spec_supports_sector_erase)]
    pub fn supports_sector_erase(&self) -> (r: bool)
        ensures
            r == self.spec_supports_sector_erase(),
    {
        matches!(*self, Family::CC26X0 | Family::CC26X2)
    }

    /// Whether the chip takes `COMMAND_SET_XOSC` (only [`Family::CC2538`]).
    #[verifier::when_used_as_spec(spec_supports_set_xosc)]
    pub fn supports_set_xosc(&self) -> (r: bool)
        ensures
            r == self.spec_supports_set_xosc(),
    {
        matches!(*self, Family::CC2538)
    }

    /// Whether the chip takes `COMMAND_BANK_ERASE` ([`Family::CC26X0`] and
    /// [`Family::CC26X2`]).
    pub fn supports_bank_erase(&self) -> (r: bool)
        ensures
            r == (*self == Family::CC26X0 || *self == Family::CC26X2),
    {
        matches!(*self, Family::CC26X0 | Family::CC26X2)
    }

    /// Whether the chip takes `COMMAND_SET_CCFG` ([`Family::CC26X0`] and
    /// [`Family::CC26X2`]).
    pub fn supports_set_ccfg(&self) -> (r: bool)
        ensures
            r == (*self == Family::CC26X0 || *self == Family::CC26X2),
    {
        matches!(*self, Family::CC26X0 | Family::CC26X2)
    }

    /// Whether the chip takes `COMMAND_DOWNLOAD_CRC` (only [`Family::CC26X2`]).
    pub fn supports_download_crc(&self) -> (r: bool)
        ensures
            r == (*self == Family::CC26X2),
    {
        matches!(*self, Family::CC26X2)
    }

    /// Size of one erasable flash sector, in bytes.
    #[verifier::when_used_as_spec(spec_sector_size)]
    pub fn sector_size(&self) -> (r: u32)
        ensures
            r == self.spec_sector_size(),
    {
        match *self {
            Family::CC2538 => 2048,
            Family::CC26X0 => 4092,
            Family::CC26X2 => 8192,
        }
    }

    /// Address at which the internal flash starts.
    #[verifier::when_used_as_spec(spec_flash_base)]
    pub fn flash_base(&self) -> (r: u32)
        ensures
            r == self.spec_flash_base(),
    {
        match *self {
            Family::CC2538 => 0x00200000,
            Family::CC26X0 | Family::CC26X2 => 0x00000000,
        }
    }

    /// The flash page (sector) that holds `address`.
    pub fn address_to_page(&self, address: u32) -> (r: u32)
        requires
            address >= self.flash_base(),
        ensures
            r == (address - self.flash_base()) / (self.sector_size() as int),
    {
        (address - self.flash_base()) / self.sector_size()
    }
}

/// A family name that is none of `cc2538`, `cc26x0` or `cc26x2`.
#[derive(Debug, Clone, Copy, PartialEq, Eq, Structural)]
pub struct ParseFamilyError;

impl ParseFamilyError {
    /// What went wrong, for a person to read.
    pub fn to_string(&self) -> (r: String)
        ensures
            r@ == family_error_message(),
    {
        String::from_str("invalid value, family must be one of: `cc2538`, `cc26x0` or `cc26x2`")
    }
}

pub open spec fn family_error_message() -> Seq<char> {
    "invalid value, family must be one of: `cc2538`, `cc26x0` or `cc26x2`"@
}

/// The family that a name spells, in all lower case or all upper case
/// (the bytes are ASCII: `c` is 0x63, `C` 0x43, `x` 0x78, `X` 0x58).
pub open spec fn family_named(name: Seq<u8>) -> Option<Family> {
    if name == seq![0x63u8, 0x63, 0x32, 0x35, 0x33, 0x38] || name == seq![0x43u8, 0x43, 0x32, 0x35, 0x33, 0x38] {
        Some(Family::CC2538)
    } else if name == seq![0x63u8, 0x63, 0x32, 0x36, 0x78, 0x30] || name == seq![0x43u8, 0x43, 0x32, 0x36, 0x58, 0x30] {
        Some(Family::CC26X0)
    } else if name == seq![0x63u8, 0x63, 0x32, 0x36, 0x78, 0x32] || name == seq![0x43u8, 0x43, 0x32, 0x36, 0x58, 0x32] {
        Some(Family::CC26X2)
    } else {
        None
    }
}

/// Whether `a` holds exactly the bytes of `b`.
fn bytes_equal(a: &[u8], b: &[u8]) -> (r: bool)
    ensures
        r == (a@ == b@),
{
    if a.len() != b.len() {
        return false;
    }
    let mut i: usize = 0;
    while i < a.len()
        invariant
            a@.len() == b@.len(),
            i <= a@.len(),
            forall|k: int| 0 <= k < i ==> a@[k] == b@[k],
        decreases a@.len() - i,
    {
        if a[i] != b[i] {
            return false;
        }
        i = i + 1;
    }
    assert(a@ =~= b@);
    true
}

/// Reads a family name: `cc2538`, `cc26x0` or `cc26x2`, in lower or upper case.
pub fn parse_family(s: &str) -> (r: Result<Family, ParseFamilyError>)
    ensures
        match family_named(s.spec_bytes()) {
            Some(f) => r == Ok::<Family, ParseFamilyError>(f),
            None => r == Err::<Family, ParseFamilyError>(ParseFamilyError),
        },
{
    let b = s.as_bytes();
    let cc2538_lower: [u8; 6] = [0x63, 0x63, 0x32, 0x35, 0x33, 0x38];
    let cc2538_upper: [u8; 6] = [0x43, 0x43, 0x32, 0x35, 0x33, 0x38];
    let cc26x0_lower: [u8; 6] = [0x63, 0x63, 0x32, 0x36, 0x78, 0x30];
    let cc26x0_upper: [u8; 6] = [0x43, 0x43, 0x32, 0x36, 0x58, 0x30];
    let cc26x2_lower: [u8; 6] = [0x63, 0x63, 0x32, 0x36, 0x78, 0x32];
    let cc26x2_upper: [u8; 6] = [0x43, 0x43, 0x32, 0x36, 0x58, 0x32];
    if bytes_equal(b, &cc2538_lower) || bytes_equal(b, &cc2538_upper) {
        Ok(Family::CC2538)
    } else if bytes_equal(b, &cc26x0_lower) || bytes_equal(b, &cc26x0_upper) {
        Ok(Family::CC26X0)
    } else if bytes_equal(b, &cc26x2_lower) || bytes_equal(b, &cc26x2_upper) {
        Ok(Family::CC26X2)
    } else {
        Err(ParseFamilyError)
    }
}

impl core::str::FromStr for Family {
    type Err = ParseFamilyError;

    fn from_str(s: &str) -> Result<Family, ParseFamilyError> {
        parse_family(s)
    }
}

} // verus!
