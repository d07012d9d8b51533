//! IPv4 endpoints in the compact 6-byte form used by tracker
//! responses: four address octets, then a big-endian port.

use vstd::prelude::*;

use crate::text::spec_decimal;
use crate::text::u64_to_string;

verus! {

#[derive(Debug, Clone, PartialEq, Eq)]
pub struct IpAddress {
    pub address: [u8; 4],
    pub port: u16,
}

impl IpAddress {
    /// Reads the 6-byte compact form: four octets, big-endian port.
    pub fn from_bytes(bytes: &[u8; 6]) -> (r: Self)
        ensures
            r.address@ == bytes@.subrange(0, 4),
            r.port == bytes@[4] * 256 + bytes@[5],
    {
        let address = [bytes[0], bytes[1], bytes[2], bytes[3]];
        let port = (bytes[4] as u16) * 256 + (bytes[5] as u16);
        proof {
            assert(address@ =~= bytes@.subrange(0, 4));
        }
        IpAddress { address, port }
    }

    /// Writes the 6-byte compact form back.
    pub fn to_bytes(&self) -> (r: [u8; 6])
        ensures
            r@ == self.address@ + seq![(self.port / 256) as u8, (self.port % 256) as u8],
    {
        let r = [
            self.address[0],
            self.address[1],
            self.address[2],
            self.address[3],
            (self.port / 256) as u8,
            (self.port % 256) as u8,
        ];
        proof {
            assert(r@ =~= self.address@ + seq![
                (self.port / 256) as u8,
                (self.port % 256) as u8,
            ]);
        }
        r
    }

    /// The usual `a.b.c.d:port` rendering.
    pub fn to_display(&self) -> (r: String)
        ensures
            r@ == spec_decimal(self.address@[0] as nat) + seq!['.'] + spec_decimal(
                self.address@[1] as nat,
            ) + seq!['.'] + spec_decimal(self.address@[2] as nat) + seq!['.'] + spec_decimal(
                self.address@[3] as nat,
            ) + seq![':'] + spec_decimal(self.port as nat),
    {
        let mut out = u64_to_string(self.address[0] as u64);
        out.append(".");
        let s1 = u64_to_string(self.address[1] as u64);
        out.append(s1.as_str());
        out.append(".");
        let s2 = u64_to_string(self.address[2] as u64);
        out.append(s2.as_str());
        out.append(".");
        let s3 = u64_to_string(self.address[3] as u64);
        out.append(s3.as_str());
        out.append(":");
        let sp = u64_to_string(self.port as u64);
        out.append(sp.as_str());
        proof {
            reveal_strlit(".");
            reveal_strlit(":");
        }
        out
    }
}

} // verus!
