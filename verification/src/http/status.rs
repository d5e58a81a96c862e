//! HTTP status codes.

use vstd::prelude::*;

verus! {

/// An HTTP status code.
#[derive(Debug, Clone, Copy, PartialEq, Eq, Structural)]
pub struct StatusCode(pub u16);

/// The last three decimal digits of a status code.
pub open spec fn status_bytes(status: u16) -> Seq<u8> {
    seq![
        (0x30 + status / 100 % 10) as u8,
        (0x30 + status / 10 % 10) as u8,
        (0x30 + status % 10) as u8,
    ]
}

impl StatusCode {
    /// The status as three decimal digits.
    pub fn to_bytes(&self) -> (r: [u8; 3])
        ensures
            r@ == status_bytes(self.0),
    {
        let r: [u8; 3] = [
            0x30 + (self.0 / 100 % 10) as u8,
            0x30 + (self.0 / 10 % 10) as u8,
            0x30 + (self.0 % 10) as u8,
        ];
        assert(r@ =~= status_bytes(self.0));
        r
    }
}

} // verus!
