use vstd::prelude::*;

use crate::codec::{decode, decode_from, run_copy};
use crate::error::Error;
use crate::header::{be32, header_bytes, lemma_header_prefix, magic_ok, Yaz0Header};

verus! {

/// Law: a written archive reads back. A Yaz0 file assembled for `data` —
/// the 16-byte header declaring `data`'s length, then a packet stream that
/// decodes to `data` — carries a valid magic, declares exactly
/// `data.len()` in its size field, and its payload decompresses to `data`
/// again.
pub proof fn lemma_file_round_trip(data: Seq<u8>, enc: Seq<u8>)
    requires
        data.len() <= 0xffff_ffff,
        decode(enc, data.len() as nat) == Some(data),
    ensures
        (header_bytes(data.len() as u32) + enc).len() == 16 + enc.len(),
        magic_ok(header_bytes(data.len() as u32) + enc),
        be32(
            (header_bytes(data.len() as u32) + enc)[4],
            (header_bytes(data.len() as u32) + enc)[5],
            (header_bytes(data.len() as u32) + enc)[6],
            (header_bytes(data.len() as u32) + enc)[7],
        ) == data.len(),
        decode((header_bytes(data.len() as u32) + enc).skip(16), data.len() as nat) == Some(data),
{
    lemma_header_prefix(data.len() as u32, enc);
}

/// Holds the bytes of a Yaz0 file whose header has been parsed, and provides
/// decompression of the packet stream that follows the header.
#[derive(Debug)]
pub struct Yaz0Archive {
    pub data: Vec<u8>,
    pub data_start: usize,
    pub header: Yaz0Header,
}

impl Yaz0Archive {
    /// The compressed payload: everything after the 16-byte header.
    pub open spec fn payload(&self) -> Seq<u8> {
        if self.data@.len() >= 16 {
            self.data@.skip(16)
        } else {
            Seq::<u8>::empty()
        }
    }

    pub open spec fn wf(&self) -> bool {
        self.data_start == 16
    }

    /// What decompressing this archive must yield: the decoded stream, or
    /// `None` when the payload is truncated or malformed.
    pub open spec fn decoded(&self) -> Option<Seq<u8>> {
        decode(self.payload(), self.header.expected_size as nat)
    }

    /// Creates an archive from the full bytes of a Yaz0 file, parsing and
    /// validating the header.
    pub fn new(data: Vec<u8>) -> (r: Result<Yaz0Archive, Error>)
        ensures
            r matches Ok(a) ==> a.wf() && a.data@ == data@ && data@.len() >= 8 && magic_ok(data@)
                && a.header.expected_size == be32(data@[4], data@[5], data@[6], data@[7]) as usize,
            data@.len() >= 8 && magic_ok(data@) ==> r is Ok,
            r matches Err(e) ==> ((e == Error::InvalidMagic) <==> (data@.len() >= 4 && !magic_ok(
                data@,
            ))),
            r matches Err(e) ==> ((e == Error::Io) <==> (data@.len() < 4 || (magic_ok(data@)
                && data@.len() < 8))),
    {
        let header = match Yaz0Header::parse(data.as_slice()) {
            Ok(h) => h,
            Err(e) => {
                return Err(e);
            },
        };
        Ok(Yaz0Archive { data, data_start: 16, header })
    }

    /// Get the expected size of the decompressed data, as declared by the
    /// parsed header.
    pub fn expected_size(&self) -> (r: usize)
        ensures
            r == self.header.expected_size,
    {
        self.header.expected_size
    }

    /// Reads byte `pos` of the payload, if the file holds that many bytes.
    fn read_byte(&self, pos: usize) -> (r: Option<u8>)
        requires
            self.wf(),
        ensures
            r matches Some(b) ==> pos < self.payload().len() && b == self.payload()[pos as int],
            r is None <==> pos >= self.payload().len(),
    {
        if self.data.len() >= 16 && pos < self.data.len() - 16 {
            let b = self.data[16 + pos];
            assert(self.payload()[pos as int] == self.data@[16 + pos]);
            Some(b)
        } else {
            None
        }
    }

    /// Decompresses the archive, producing the decompressed data.
    ///
    /// Returns `Ok` exactly when the payload is a well-formed packet stream
    /// for the header's declared size, and then the returned bytes are its
    /// decoding; fails with `Io` otherwise.
    pub fn decompress(&mut self) -> (r: Result<Vec<u8>, Error>)
        requires
            old(self).wf(),
        ensures
            *final(self) == *old(self),
            r is Ok <==> old(self).decoded() is Some,
            r matches Ok(v) ==> old(self).decoded() == Some(v@) && v@.len() == old(
                self,
            ).header.expected_size,
            r matches Err(e) ==> e == Error::Io,
    {
        let size = self.header.expected_size;
        let mut dest: Vec<u8> = vec![0u8; size];
        match self.decompress_into(&mut dest) {
            Ok(()) => {
                proof {
                    assert(dest@.subrange(0, size as int) =~= dest@);
                }
                Ok(dest)
            },
            Err(e) => Err(e),
        }
    }

    /// Decompresses the packet stream into the first `expected_size` bytes
    /// of `dest`; the bytes beyond that are left as they were. The caller
    /// must supply a buffer at least `expected_size` long.
    pub fn decompress_into(&mut self, dest: &mut Vec<u8>) -> (r: Result<(), Error>)
        requires
            old(self).wf(),
            old(dest).len() >= old(self).header.expected_size,
        ensures
            *final(self) == *old(self),
            final(dest).len() == old(dest).len(),
            final(dest)@.skip(old(self).header.expected_size as int) == old(dest)@.skip(
                old(self).header.expected_size as int,
            ),
            r is Ok <==> old(self).decoded() is Some,
            r is Ok ==> old(self).decoded() == Some(
                final(dest)@.subrange(0, old(self).header.expected_size as int),
            ),
            r matches Err(e) ==> e == Error::Io,
    {
        let size = self.header.expected_size;
        let data_len = self.data.len();
        let ghost stream = self.payload();
        let ghost limit = size as nat;
        proof {
            assert(stream.len() <= data_len);
            assert(dest@.subrange(0, 0) =~= Seq::<u8>::empty());
        }

        let mut dest_pos: usize = 0;
        let mut pos: usize = 0;
        let mut ops_left: u8 = 0;
        let mut code_byte: u8 = 0;

        while dest_pos < size
            invariant
                *self == *old(self),
                self.wf(),
                size == self.header.expected_size,
                stream == self.payload(),
                limit == size as nat,
                dest.len() == old(dest).len(),
                dest_pos <= size <= dest.len(),
                dest@.skip(size as int) == old(dest)@.skip(size as int),
                pos <= stream.len() <= usize::MAX,
                decode_from(
                    stream,
                    pos as int,
                    code_byte,
                    ops_left as nat,
                    dest@.subrange(0, dest_pos as int),
                    limit,
                ) == decode(stream, limit),
            decreases size - dest_pos,
        {
            let ghost out0 = dest@.subrange(0, dest_pos as int);
            if ops_left == 0 {
                code_byte = match self.read_byte(pos) {
                    Some(b) => b,
                    None => {
                        return Err(Error::Io);
                    },
                };
                pos = pos + 1;
                ops_left = 8;
            }
            let ghost pos0 = pos as int;
            let ghost code0 = code_byte;
            let ghost ops0 = ops_left as nat;
            if code_byte & 0x80 != 0 {
                // literal packet: copy one byte straight through
                let b = match self.read_byte(pos) {
                    Some(b) => b,
                    None => {
                        return Err(Error::Io);
                    },
                };
                pos = pos + 1;
                dest.set(dest_pos, b);
                dest_pos = dest_pos + 1;
                proof {
                    assert(dest@.subrange(0, dest_pos as int) =~= out0.push(b));
                    assert(dest@.skip(size as int) =~= old(dest)@.skip(size as int));
                }
            } else {
                // back-reference packet
                let b1 = match self.read_byte(pos) {
                    Some(b) => b,
                    None => {
                        return Err(Error::Io);
                    },
                };
                let b2 = match self.read_byte(pos + 1) {
                    Some(b) => b,
                    None => {
                        return Err(Error::Io);
                    },
                };
                let dist16: u16 = (((b1 & 0xf) as u16) << 8) | (b2 as u16);
                proof {
                    assert(dist16 == (b1 & 0xf) as u16 * 256 + b2 as u16 && dist16 <= 0xfff)
                        by (bit_vector)
                        requires
                            dist16 == (((b1 & 0xf) as u16) << 8) | (b2 as u16),
                    ;
                }
                let dist = dist16 as usize;
                let copy_len: usize;
                if b1 >> 4 == 0 {
                    let b3 = match self.read_byte(pos + 2) {
                        Some(b) => b,
                        None => {
                            return Err(Error::Io);
                        },
                    };
                    copy_len = b3 as usize + 0x12;
                    pos = pos + 3;
                } else {
                    copy_len = (b1 >> 4) as usize + 2;
                    pos = pos + 2;
                }
                if dist + 1 > dest_pos {
                    // the reference points before the start of the output
                    return Err(Error::Io);
                }
                let run_base = dest_pos - (dist + 1);
                if copy_len > size - dest_pos {
                    // the reference overshoots the declared size
                    return Err(Error::Io);
                }
                proof {
                    assert((b1 >> 4) as int + 2 >= 2) by (bit_vector);
                }
                let ghost base0 = run_base as int;
                let ghost dp0 = dest_pos as int;
                let mut i: usize = 0;
                while i < copy_len
                    invariant
                        i <= copy_len,
                        dest_pos == dp0 + i,
                        run_base == base0,
                        base0 + i < dest_pos,
                        dp0 + copy_len <= size <= dest.len(),
                        dest.len() == old(dest).len(),
                        dest@.skip(size as int) == old(dest)@.skip(size as int),
                        run_copy(out0, base0, copy_len as nat) == run_copy(
                            dest@.subrange(0, dest_pos as int),
                            base0 + i,
                            (copy_len - i) as nat,
                        ),
                        out0 == dest@.subrange(0, dp0),
                    decreases copy_len - i,
                {
                    let ghost cur = dest@.subrange(0, dest_pos as int);
                    let b = dest[run_base + i];
                    dest.set(dest_pos, b);
                    proof {
                        assert(cur[base0 + i] == b);
                        assert(dest@.subrange(0, dest_pos as int + 1) =~= cur.push(b));
                        assert(dest@.subrange(0, dp0) =~= out0);
                        assert(dest@.skip(size as int) =~= old(dest)@.skip(size as int));
                    }
                    dest_pos = dest_pos + 1;
                    i = i + 1;
                }
                proof {
                    assert(run_copy(out0, base0, copy_len as nat) == dest@.subrange(
                        0,
                        dest_pos as int,
                    ));
                }
            }
            code_byte = code_byte << 1;
            ops_left = ops_left - 1;
            proof {
                assert(decode_from(
                    stream,
                    pos as int,
                    code_byte,
                    ops_left as nat,
                    dest@.subrange(0, dest_pos as int),
                    limit,
                ) == decode_from(stream, pos0, code0, ops0, out0, limit));
            }
        }
        proof {
            assert(old(self).decoded() == Some(dest@.subrange(0, size as int)));
        }
        Ok(())
    }
}

} // verus!
