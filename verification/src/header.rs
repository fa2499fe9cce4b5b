use vstd::prelude::*;

use crate::error::Error;

verus! {

/// The fixed 16-byte header of a Yaz0 file: the ASCII magic `"Yaz0"`, the
/// uncompressed size as a big-endian 32-bit integer, then eight reserved
/// bytes which are written as zero and ignored on read.
#[derive(Debug, Clone, Copy, PartialEq, Eq, Structural)]
pub struct Yaz0Header {
    /// Expected size of the decompressed file.
    pub expected_size: usize,
}

/// The big-endian 32-bit value stored in four bytes.
pub open spec fn be32(b0: u8, b1: u8, b2: u8, b3: u8) -> u32 {
    ((b0 as u32) << 24) | ((b1 as u32) << 16) | ((b2 as u32) << 8) | (b3 as u32)
}

/// True when `data` starts with the ASCII bytes `"Yaz0"`.
pub open spec fn magic_ok(data: Seq<u8>) -> bool {
    data.len() >= 4 && data[0] == 0x59 && data[1] == 0x61 && data[2] == 0x7a && data[3] == 0x30
}

/// The 16 bytes that `Yaz0Header::write` emits for a given size.
pub open spec fn header_bytes(n: u32) -> Seq<u8> {
    seq![
        0x59u8,
        0x61u8,
        0x7au8,
        0x30u8,
        (n >> 24) as u8,
        ((n >> 16) & 0xff) as u8,
        ((n >> 8) & 0xff) as u8,
        (n & 0xff) as u8,
        0u8,
        0u8,
        0u8,
        0u8,
        0u8,
        0u8,
        0u8,
        0u8,
    ]
}

impl Yaz0Header {
    pub fn new(expected_size: usize) -> (h: Yaz0Header)
        ensures
            h.expected_size == expected_size,
    {
        Yaz0Header { expected_size }
    }

    /// Parses the header found at the very start of `data`. On success the
    /// compressed payload begins at byte 16 of `data`.
    ///
    /// Fails with `InvalidMagic` exactly when four bytes are present and they
    /// are not `"Yaz0"`; fails with `Io` exactly when the data is too short
    /// to hold the magic or the size field.
    pub fn parse(data: &[u8]) -> (r: Result<Yaz0Header, Error>)
        ensures
            r matches Ok(h) ==> data@.len() >= 8 && magic_ok(data@) && h.expected_size == be32(
                data@[4],
                data@[5],
                data@[6],
                data@[7],
            ) as usize,
            data@.len() >= 8 && magic_ok(data@) ==> r is Ok,
            r == Err::<Yaz0Header, Error>(Error::InvalidMagic) <==> (data@.len() >= 4 && !magic_ok(
                data@,
            )),
            r == Err::<Yaz0Header, Error>(Error::Io) <==> (data@.len() < 4 || (magic_ok(data@)
                && data@.len() < 8)),
    {
        if data.len() < 4 {
            return Err(Error::Io);
        }
        if !(data[0] == 0x59 && data[1] == 0x61 && data[2] == 0x7a && data[3] == 0x30) {
            return Err(Error::InvalidMagic);
        }
        if data.len() < 8 {
            return Err(Error::Io);
        }
        let size: u32 = ((data[4] as u32) << 24) | ((data[5] as u32) << 16) | ((data[6] as u32)
            << 8) | (data[7] as u32);
        Ok(Yaz0Header { expected_size: size as usize })
    }

    /// Appends the 16 header bytes for `self.expected_size` to `dest`.
    ///
    /// The size must fit the wire format's 32-bit field.
    pub fn write(&self, dest: &mut Vec<u8>)
        requires
            self.expected_size <= 0xffff_ffff,
        ensures
            final(dest)@ == old(dest)@ + header_bytes(self.expected_size as u32),
    {
        let n = self.expected_size as u32;
        dest.push(0x59);
        dest.push(0x61);
        dest.push(0x7a);
        dest.push(0x30);
        dest.push((n >> 24) as u8);
        dest.push(((n >> 16) & 0xff) as u8);
        dest.push(((n >> 8) & 0xff) as u8);
        dest.push((n & 0xff) as u8);
        let mut i: usize = 0;
        while i < 8
            invariant
                i <= 8,
                dest@ == old(dest)@ + header_bytes(self.expected_size as u32).take(8 + i),
            decreases 8 - i,
        {
            dest.push(0);
            assert(header_bytes(self.expected_size as u32).take(8 + i as int + 1)
                =~= header_bytes(self.expected_size as u32).take(8 + i as int).push(0u8));
            i = i + 1;
        }
        assert(header_bytes(self.expected_size as u32).take(16)
            =~= header_bytes(self.expected_size as u32));
    }
}

/// Law: the header round-trips. The 16 bytes written for a size `n` carry a
/// valid magic, and parsing the size field back yields `n` again, whatever
/// follows the header.
pub proof fn lemma_header_roundtrip(n: u32)
    ensures
        header_bytes(n).len() == 16,
        magic_ok(header_bytes(n)),
        be32(header_bytes(n)[4], header_bytes(n)[5], header_bytes(n)[6], header_bytes(n)[7]) == n,
{
    let b4 = (n >> 24) as u8;
    let b5 = ((n >> 16) & 0xff) as u8;
    let b6 = ((n >> 8) & 0xff) as u8;
    let b7 = (n & 0xff) as u8;
    assert(((b4 as u32) << 24) | ((b5 as u32) << 16) | ((b6 as u32) << 8) | (b7 as u32) == n)
        by (bit_vector)
        requires
            b4 == (n >> 24) as u8,
            b5 == ((n >> 16) & 0xff) as u8,
            b6 == ((n >> 8) & 0xff) as u8,
            b7 == (n & 0xff) as u8,
    ;
}

/// Law: a header followed by any payload still parses to the size it was
/// written with, and the payload starts at byte 16.
pub proof fn lemma_header_prefix(n: u32, tail: Seq<u8>)
    ensures
        (header_bytes(n) + tail).len() == 16 + tail.len(),
        magic_ok(header_bytes(n) + tail),
        be32(
            (header_bytes(n) + tail)[4],
            (header_bytes(n) + tail)[5],
            (header_bytes(n) + tail)[6],
            (header_bytes(n) + tail)[7],
        ) == n,
        (header_bytes(n) + tail).skip(16) == tail,
{
    lemma_header_roundtrip(n);
    assert((header_bytes(n) + tail).skip(16) =~= tail);
}

} // verus!
