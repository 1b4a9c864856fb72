//! Text forms of the values a person reads off a chip.

use vstd::prelude::*;
use vstd::string::*;

verus! {

/// The upper-case hexadecimal digit of `n`, for `n < 16`.
pub open spec fn hex_digit(n: int) -> Seq<char> {
    if n == 0 {
        "0"@
    } else if n == 1 {
        "1"@
    } else if n == 2 {
        "2"@
    } else if n == 3 {
        "3"@
    } else if n == 4 {
        "4"@
    } else if n == 5 {
        "5"@
    } else if n == 6 {
        "6"@
    } else if n == 7 {
        "7"@
    } else if n == 8 {
        "8"@
    } else if n == 9 {
        "9"@
    } else if n == 10 {
        "A"@
    } else if n == 11 {
        "B"@
    } else if n == 12 {
        "C"@
    } else if n == 13 {
        "D"@
    } else if n == 14 {
        "E"@
    } else {
        "F"@
    }
}

/// A byte as two upper-case hexadecimal digits.
pub open spec fn byte_text(b: u8) -> Seq<char> {
    hex_digit((b / 16) as int) + hex_digit((b % 16) as int)
}

/// Bytes as pairs of upper-case hexadecimal digits separated by colons.
pub open spec fn addr_text(a: Seq<u8>) -> Seq<char>
    decreases a.len(),
{
    if a.len() == 0 {
        seq![]
    } else if a.len() == 1 {
        byte_text(a[0])
    } else {
        addr_text(a.drop_last()) + ":"@ + byte_text(a.last())
    }
}

fn hex_digit_str(n: u8) -> (r: &'static str)
    requires
        n < 16,
    ensures
        r@ == hex_digit(n as int),
{
    if n == 0 {
        "0"
    } else if n == 1 {
        "1"
    } else if n == 2 {
        "2"
    } else if n == 3 {
        "3"
    } else if n == 4 {
        "4"
    } else if n == 5 {
        "5"
    } else if n == 6 {
        "6"
    } else if n == 7 {
        "7"
    } else if n == 8 {
        "8"
    } else if n == 9 {
        "9"
    } else if n == 10 {
        "A"
    } else if n == 11 {
        "B"
    } else if n == 12 {
        "C"
    } else if n == 13 {
        "D"
    } else if n == 14 {
        "E"
    } else {
        "F"
    }
}

/// An 8-byte IEEE address as `XX:XX:XX:XX:XX:XX:XX:XX`, upper-case
/// hexadecimal.
pub fn format_addr(addr: [u8; 8]) -> (r: String)
    ensures
        r@ == addr_text(addr@),
{
    let mut s = String::new();
    let mut i: usize = 0;
    while i < 8
        invariant
            i <= 8,
            addr@.len() == 8,
            s@ == addr_text(addr@.take(i as int)),
        decreases 8 - i,
    {
        let ghost before = s@;
        if i > 0 {
            s.append(":");
        }
        let b = addr[i];
        s.append(hex_digit_str(b / 16));
        s.append(hex_digit_str(b % 16));
        proof {
            let t = addr@.take(i + 1);
            assert(t.drop_last() =~= addr@.take(i as int));
            assert(t.last() == b);
            if i == 0 {
                assert(s@ =~= byte_text(b));
            } else {
                assert(s@ =~= before + ":"@ + byte_text(b));
            }
        }
        i = i + 1;
    }
    assert(addr@.take(8) =~= addr@);
    s
}

/// The value of the ASCII hexadecimal digit `b` (either case), if it is one.
pub open spec fn hex_value(b: u8) -> Option<int> {
    if 0x30 <= b <= 0x39 {
        Some(b - 0x30)
    } else if 0x41 <= b <= 0x46 {
        Some(b - 0x41 + 10)
    } else if 0x61 <= b <= 0x66 {
        Some(b - 0x61 + 10)
    } else {
        None
    }
}

/// The number that the hexadecimal digits `d` spell, most significant
/// first, if each is a digit.
pub open spec fn hex_number(d: Seq<u8>) -> Option<int>
    decreases d.len(),
{
    if d.len() == 0 {
        Some(0)
    } else {
        match (hex_number(d.drop_last()), hex_value(d.last())) {
            (Some(hi), Some(lo)) => Some(hi * 16 + lo),
            _ => None,
        }
    }
}

/// The address that `text` spells in hexadecimal: an optional `0x`, an
/// optional `+`, then at least one digit, worth at most `u32::MAX`.
pub open spec fn hex_address_value(text: Seq<u8>) -> Option<u32> {
    let body = if text.len() >= 2 && text[0] == 0x30 && text[1] == 0x78 {
        text.skip(2)
    } else {
        text
    };
    let digits = if body.len() >= 1 && body[0] == 0x2B {
        body.skip(1)
    } else {
        body
    };
    match hex_number(digits) {
        Some(v) => if digits.len() > 0 && v <= u32::MAX {
            Some(v as u32)
        } else {
            None
        },
        None => None,
    }
}

proof fn lemma_hex_number_grows(d: Seq<u8>, i: int)
    requires
        0 <= i <= d.len(),
        hex_number(d) is Some,
    ensures
        hex_number(d.take(i)) is Some,
        0 <= hex_number(d.take(i))->0 <= hex_number(d)->0,
    decreases d.len(),
{
    if d.len() > 0 {
        let j = if i < d.len() { i } else { d.len() - 1 };
        lemma_hex_number_grows(d.drop_last(), j);
        lemma_hex_number_grows(d.drop_last(), d.len() - 1);
        assert(d.drop_last().take(d.len() - 1) =~= d.drop_last());
        if i < d.len() {
            assert(d.drop_last().take(i) =~= d.take(i));
        }
    }
    if i == d.len() {
        assert(d.take(i) =~= d);
    }
}

/// Reads a flash address written in hexadecimal, with or without a
/// leading `0x`.
pub fn parse_hex_address(text: &str) -> (r: Option<u32>)
    ensures
        r == hex_address_value(text.spec_bytes()),
{
    let b = text.as_bytes();
    let mut i: usize = 0;
    if b.len() >= 2 && b[0] == 0x30 && b[1] == 0x78 {
        i = 2;
    }
    if i < b.len() && b[i] == 0x2B {
        i = i + 1;
    }
    let start = i;
    let ghost digits = b@.skip(start as int);
    proof {
        let body = if b@.len() >= 2 && b@[0] == 0x30 && b@[1] == 0x78 { b@.skip(2) } else { b@ };
        if body.len() >= 1 && body[0] == 0x2B {
            assert(body.skip(1) =~= digits);
        } else {
            assert(body =~= digits);
        }
        assert(hex_address_value(text.spec_bytes()) == match hex_number(digits) {
            Some(v) => if digits.len() > 0 && v <= u32::MAX {
                Some(v as u32)
            } else {
                None
            },
            None => None,
        });
    }
    if start == b.len() {
        return None;
    }
    let mut value: u64 = 0;
    while i < b.len()
        invariant
            start <= i <= b@.len(),
            digits == b@.skip(start as int),
            hex_number(digits.take(i - start)) == Some(value as int),
            value <= u32::MAX,
            hex_number(digits) is None ==> hex_address_value(text.spec_bytes()) is None,
            hex_number(digits) matches Some(v) && v > u32::MAX ==> hex_address_value(text.spec_bytes()) is None,
        decreases b@.len() - i,
    {
        let c = b[i];
        let d: u64 = if 0x30 <= c && c <= 0x39 {
            (c - 0x30) as u64
        } else if 0x41 <= c && c <= 0x46 {
            (c - 0x41 + 10) as u64
        } else if 0x61 <= c && c <= 0x66 {
            (c - 0x61 + 10) as u64
        } else {
            proof {
                let t = digits.take(i - start + 1);
                assert(t.last() == c);
                assert(hex_number(t) is None);
                if hex_number(digits) is Some {
                    lemma_hex_number_grows(digits, i - start + 1);
                }
            }
            return None;
        };
        proof {
            let t = digits.take(i - start + 1);
            assert(t.drop_last() =~= digits.take(i - start));
            assert(t.last() == c);
        }
        value = value * 16 + d;
        if value > 0xFFFF_FFFF {
            proof {
                if hex_number(digits) is Some {
                    lemma_hex_number_grows(digits, i - start + 1);
                }
            }
            return None;
        }
        i = i + 1;
    }
    assert(digits.take(i - start) =~= digits);
    Some(value as u32)
}

} // verus!
