//! Device identities: the (vendor, product) identifier pair of a USB device,
//! and its canonical zero-padded hex rendering.

use vstd::prelude::*;

verus! {

/// A device model identity: the vendor and product identifiers of a USB
/// device, compared as an ordered pair (vendor first). Two physical units
/// with the same pair are indistinguishable by design.
#[derive(Clone, Copy, PartialEq, Eq, Structural, Debug)]
pub struct DeviceIdentity {
    pub vendor: u16,
    pub product: u16,
}

/// The lower-case hex digit for a value below sixteen.
pub open spec fn spec_hex_digit(n: int) -> char {
    if n == 0 {
        '0'
    } else if n == 1 {
        '1'
    } else if n == 2 {
        '2'
    } else if n == 3 {
        '3'
    } else if n == 4 {
        '4'
    } else if n == 5 {
        '5'
    } else if n == 6 {
        '6'
    } else if n == 7 {
        '7'
    } else if n == 8 {
        '8'
    } else if n == 9 {
        '9'
    } else if n == 10 {
        'a'
    } else if n == 11 {
        'b'
    } else if n == 12 {
        'c'
    } else if n == 13 {
        'd'
    } else if n == 14 {
        'e'
    } else {
        'f'
    }
}

/// Four-digit, zero-padded, lower-case hex rendering of a 16-bit value.
pub open spec fn spec_hex4(v: u16) -> Seq<char> {
    seq![
        spec_hex_digit(v as int / 4096 % 16),
        spec_hex_digit(v as int / 256 % 16),
        spec_hex_digit(v as int / 16 % 16),
        spec_hex_digit(v as int % 16),
    ]
}

/// The canonical string form of an identity: vendor and product as four hex
/// digits each, separated by a colon. Zero padding makes the form
/// collision-free, so string equality coincides with pair equality.
pub open spec fn spec_canonical(id: DeviceIdentity) -> Seq<char> {
    spec_hex4(id.vendor) + seq![':'] + spec_hex4(id.product)
}

/// Appends the hex digit for `n` to `s`.
fn push_hex_digit(s: &mut String, n: u16)
    requires
        n < 16,
    ensures
        final(s)@ == old(s)@ + seq![spec_hex_digit(n as int)],
{
    let digits = "0123456789abcdef";
    proof {
        reveal_strlit("0123456789abcdef");
    }
    let d = digits.substring_ascii(n as usize, n as usize + 1);
    assert(d@ =~= seq![spec_hex_digit(n as int)]);
    s.append(d);
}

impl DeviceIdentity {
    /// Renders the identity in its canonical `vvvv:pppp` form.
    pub fn canonical_string(&self) -> (r: String)
        ensures
            r@ == spec_canonical(*self),
    {
        let mut s = String::new();
        push_hex_digit(&mut s, self.vendor / 4096);
        push_hex_digit(&mut s, self.vendor / 256 % 16);
        push_hex_digit(&mut s, self.vendor / 16 % 16);
        push_hex_digit(&mut s, self.vendor % 16);
        proof {
            reveal_strlit(":");
        }
        s.append(":");
        push_hex_digit(&mut s, self.product / 4096);
        push_hex_digit(&mut s, self.product / 256 % 16);
        push_hex_digit(&mut s, self.product / 16 % 16);
        push_hex_digit(&mut s, self.product % 16);
        assert(s@ =~= spec_canonical(*self));
        s
    }
}

} // verus!
