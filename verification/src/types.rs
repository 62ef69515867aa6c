use vstd::prelude::*;

verus! {

/// Metadata of one announcement: its sort key and where its bytes live.
#[derive(Clone, Copy, Debug, Default, PartialEq, Eq, Structural)]
pub struct AnnData {
    /// Numeric prefix of the announcement's hash.
    pub hash_pfx: u64,
    /// Absolute location of the announcement in the byte store.
    pub mloc: usize,
}

/// The full hash of an announcement.
#[derive(Clone, Copy, Debug, PartialEq, Eq)]
pub struct Hash {
    pub bytes: [u8; 32],
}

impl Hash {
    /// The first eight bytes read as a little-endian number.
    pub open spec fn prefix(&self) -> u64 {
        (self.bytes[0] as int + self.bytes[1] as int * 0x100 + self.bytes[2] as int * 0x1_0000
            + self.bytes[3] as int * 0x100_0000 + self.bytes[4] as int * 0x1_0000_0000
            + self.bytes[5] as int * 0x100_0000_0000 + self.bytes[6] as int * 0x1_0000_0000_0000
            + self.bytes[7] as int * 0x100_0000_0000_0000) as u64
    }

    /// The hash prefix: the first eight bytes, least significant first.
    pub fn to_u64(&self) -> (r: u64)
        ensures
            r == self.prefix(),
    {
        let b0: u64 = self.bytes[0] as u64;
        let b1: u64 = self.bytes[1] as u64;
        let b2: u64 = self.bytes[2] as u64;
        let b3: u64 = self.bytes[3] as u64;
        let b4: u64 = self.bytes[4] as u64;
        let b5: u64 = self.bytes[5] as u64;
        let b6: u64 = self.bytes[6] as u64;
        let b7: u64 = self.bytes[7] as u64;
        b0 + b1 * 0x100 + b2 * 0x1_0000 + b3 * 0x100_0000 + b4 * 0x1_0000_0000 + b5
            * 0x100_0000_0000 + b6 * 0x1_0000_0000_0000 + b7 * 0x100_0000_0000_0000
    }
}

} // verus!
