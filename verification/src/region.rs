//! The region container: a fixed 8192-byte header holding a 1024-slot
//! location table and a matching timestamp table, followed by a sector
//! addressed data area that stores one compressed chunk record per
//! allocated slot.
use vstd::prelude::*;

use crate::nbt::be4;
use crate::world::Chunk;
use crate::world::chunk_doc;
use crate::world::chunk_doc_bytes;
use crate::world::chunk_from_bytes;
use crate::world::chunk_level_wf;
use crate::world::chunk_parsed_from;
use crate::world::has_chunk_doc;

verus! {

broadcast use vstd::std_specs::vec::group_vec_axioms;

/// Why a region operation failed.
#[derive(Debug, PartialEq, Eq, Structural, Clone, Copy)]
pub enum WorldError {
    /// The location slot for the chunk holds a zero sector count.
    UnallocatedChunk,
    /// A sector span or record length reaches outside the data area, or a
    /// record is too large for its length prefix or a sector count.
    RecordOutOfBounds,
    /// The record's compressed payload does not decompress.
    DecompressionFailure,
    /// The decompressed payload is not a document with a compound root
    /// holding the expected chunk shape.
    MalformedTree,
}

/// A region file held in memory: two 4096-byte header tables and the
/// sector-addressed data area, keyed by the region's coordinate pair.
#[derive(Debug, PartialEq)]
pub struct Region {
    pub locations: Vec<u8>,
    pub timestamps: Vec<u8>,
    pub data: Vec<u8>,
    pub x: isize,
    pub z: isize,
}

/// Local coordinate of a chunk coordinate within its region: the value
/// reduced modulo 32.
pub open spec fn local_of(c: isize) -> int {
    ((c as usize) & 31) as int
}

/// Byte index of a chunk's four-byte slot within a header table.
pub open spec fn slot_base(x: isize, z: isize) -> int {
    4 * (32 * local_of(z) + local_of(x))
}

/// Sector offset stored in the slot at `base`: three big-endian bytes.
pub open spec fn slot_offset(table: Seq<u8>, base: int) -> int {
    table[base] * 0x1_0000 + table[base + 1] * 0x100 + table[base + 2]
}

/// Sector count stored in the slot at `base`: the fourth byte.
pub open spec fn slot_count(table: Seq<u8>, base: int) -> int {
    table[base + 3] as int
}

/// A local coordinate is always one of the 32 slots per axis.
pub proof fn lemma_local_range(c: isize)
    by (bit_vector)
    ensures
        0 <= ((c as usize) & 31) < 32,
{
}

/// The slot addressing is a bijection: distinct local coordinate pairs use
/// distinct four-byte slots of the 4096-byte table.
pub proof fn lemma_slot_bijective(x1: int, z1: int, x2: int, z2: int)
    requires
        0 <= x1 < 32,
        0 <= z1 < 32,
        0 <= x2 < 32,
        0 <= z2 < 32,
        (x1, z1) != (x2, z2),
    ensures
        4 * (32 * z1 + x1) != 4 * (32 * z2 + x2),
        0 <= 4 * (32 * z1 + x1) <= 4092,
{
}

/// Writing a four-byte slot and reading it back through the slot parsers
/// recovers exactly the written offset and count.
pub proof fn lemma_slot_roundtrip(table: Seq<u8>, base: int, off: int, cnt: u8)
    requires
        table.len() == 4096,
        0 <= base <= 4092,
        0 <= off < 0x100_0000,
    ensures
        ({
            let stored = table.update(base, ((off / 0x1_0000) % 0x100) as u8).update(
                base + 1,
                ((off / 0x100) % 0x100) as u8,
            ).update(base + 2, (off % 0x100) as u8).update(base + 3, cnt);
            slot_offset(stored, base) == off && slot_count(stored, base) == cnt
        }),
{
    let b0: u8 = ((off / 0x1_0000) % 0x100) as u8;
    let b1: u8 = ((off / 0x100) % 0x100) as u8;
    let b2: u8 = (off % 0x100) as u8;
    assert(b0 * 0x1_0000 + b1 * 0x100 + b2 == off) by (nonlinear_arith)
        requires
            0 <= off < 0x100_0000,
            b0 == ((off / 0x1_0000) % 0x100) as u8,
            b1 == ((off / 0x100) % 0x100) as u8,
            b2 == (off % 0x100) as u8,
    ;
}

impl Region {
    /// Both header tables hold exactly one 4-byte entry per slot.
    pub open spec fn wf(self) -> bool {
        self.locations@.len() == 4096 && self.timestamps@.len() == 4096
    }

    /// The exact byte image this region encodes to.
    pub open spec fn encode_spec(self) -> Seq<u8> {
        self.locations@ + self.timestamps@ + self.data@
    }

    /// Whether `self` is the decoding of the byte image `b` under the
    /// region coordinates `(x, z)`.
    pub open spec fn decodes_from(self, b: Seq<u8>, x: isize, z: isize) -> bool {
        &&& b.len() >= 8192
        &&& self.locations@ == b.subrange(0, 4096)
        &&& self.timestamps@ == b.subrange(4096, 8192)
        &&& self.data@ == b.skip(8192)
        &&& self.x == x
        &&& self.z == z
    }

    /// Splits a byte buffer into the two header tables and the data area.
    /// A buffer shorter than the 8192-byte header cannot be a region.
    pub fn decode(bytes: &[u8], x: isize, z: isize) -> (r: Option<Region>)
        ensures
            match r {
                Some(region) => region.decodes_from(bytes@, x, z) && region.wf(),
                None => bytes@.len() < 8192,
            },
    {
        if bytes.len() < 8192 {
            return None;
        }
        let locations: Vec<u8> = copy_range(bytes, 0, 4096);
        let timestamps: Vec<u8> = copy_range(bytes, 4096, 8192);
        let data: Vec<u8> = copy_range(bytes, 8192, bytes.len());
        assert(data@ =~= bytes@.skip(8192));
        Some(Region { locations, timestamps, data, x, z })
    }

    /// Concatenates the two header tables and the data area, in that order:
    /// the exact inverse of `decode`.
    pub fn encode(&self) -> (r: Vec<u8>)
        ensures
            r@ == self.encode_spec(),
    {
        let mut out: Vec<u8> = Vec::new();
        crate::nbt::push_bytes(&mut out, &self.locations);
        crate::nbt::push_bytes(&mut out, &self.timestamps);
        crate::nbt::push_bytes(&mut out, &self.data);
        assert(out@ =~= self.encode_spec());
        out
    }

    /// Reads the location slot for the chunk at `(x, z)`: its sector offset
    /// and sector count. A count of zero means the chunk is not present.
    pub fn get_chunk_location(&self, x: isize, z: isize) -> (r: (usize, usize))
        requires
            self.wf(),
        ensures
            r.0 == slot_offset(self.locations@, slot_base(x, z)),
            r.1 == slot_count(self.locations@, slot_base(x, z)),
            r.0 < 0x100_0000,
            r.1 < 0x100,
    {
        let xl: usize = (#[verifier::truncate] (x as usize)) & 31;
        let zl: usize = (#[verifier::truncate] (z as usize)) & 31;
        proof {
            lemma_local_range(x);
            lemma_local_range(z);
        }
        let base: usize = 4 * (32 * zl + xl);
        let offset: usize = (self.locations[base] as usize) * 0x1_0000 + (self.locations[base
            + 1] as usize) * 0x100 + (self.locations[base + 2] as usize);
        let count: usize = self.locations[base + 3] as usize;
        (offset, count)
    }
}

impl Region {
    /// Materializes the chunk at `(x, z)`: resolves its location slot,
    /// frames and decompresses the record, parses the tagged-value tree
    /// and stamps the requested coordinates onto the result. An absent
    /// slot, a span or length outside the data area, a corrupt compressed
    /// stream and a malformed tree each fail with their own error.
    pub fn get_chunk(&self, x: isize, z: isize) -> (r: Result<Chunk, WorldError>)
        requires
            self.wf(),
        ensures
            ({
                let off = slot_offset(self.locations@, slot_base(x, z));
                let cnt = slot_count(self.locations@, slot_base(x, z));
                let oob = 4096 * (off + cnt) > self.data@.len();
                let slice = record_slice(self.data@, off, cnt);
                {
                    &&& (r is Ok <==> cnt != 0 && !oob && (match record_decode(slice) {
                        Some(raw) => has_chunk_doc(raw),
                        None => false,
                    }))
                    &&& match r {
                        Ok(c) => match record_decode(slice) {
                            Some(raw) => chunk_parsed_from(c, raw, x, z),
                            None => false,
                        },
                        Err(e) => {
                            &&& (e == WorldError::UnallocatedChunk <==> cnt == 0)
                            &&& (e == WorldError::RecordOutOfBounds <==> cnt != 0 && (oob
                                || record_framed(slice) is None))
                            &&& (e == WorldError::DecompressionFailure <==> cnt != 0
                                && !oob && record_framed(slice) is Some && record_decode(
                                slice,
                            ) is None)
                            &&& (e == WorldError::MalformedTree <==> cnt != 0 && !oob
                                && (match record_decode(slice) {
                                Some(raw) => !has_chunk_doc(raw),
                                None => false,
                            }))
                        },
                    }
                }
            }),
    {
        let (off, cnt) = self.get_chunk_location(x, z);
        if cnt == 0 {
            return Err(WorldError::UnallocatedChunk);
        }
        let dlen: usize = self.data.len();
        let end64: u64 = ((off + cnt) as u64) * 4096;
        if end64 > dlen as u64 {
            return Err(WorldError::RecordOutOfBounds);
        }
        let start: usize = off * 4096;
        let end: usize = (off + cnt) * 4096;
        let rec: Vec<u8> = copy_range(self.data.as_slice(), start, end);
        let ghost slice = record_slice(self.data@, off as int, cnt as int);
        assert(rec@ == slice);
        let l: u64 = (rec[0] as u64) * 0x100_0000 + (rec[1] as u64) * 0x1_0000 + (rec[2] as u64)
            * 0x100 + (rec[3] as u64);
        if l < 1 || 4 + l > rec.len() as u64 {
            return Err(WorldError::RecordOutOfBounds);
        }
        let scheme: u8 = rec[4];
        let payload: Vec<u8> = copy_range(rec.as_slice(), 5, 4 + (l as usize));
        assert(record_framed(slice) == Some((scheme, payload@)));
        let raw: Vec<u8> = if scheme == 1 {
            match crate::zlib::gzip_decompress(payload.as_slice()) {
                Some(d) => d,
                None => {
                    return Err(WorldError::DecompressionFailure);
                },
            }
        } else if scheme == 2 {
            match crate::zlib::zlib_decompress(payload.as_slice()) {
                Some(d) => d,
                None => {
                    return Err(WorldError::DecompressionFailure);
                },
            }
        } else {
            payload
        };
        assert(record_decode(slice) == Some(raw@));
        chunk_from_bytes(&raw, x, z)
    }

    /// Writes a chunk back into the region: serializes its tree, applies
    /// the zlib scheme, and reconciles the record's sector footprint
    /// against the old allocation. A record that still fits its slot's
    /// span is overwritten in place and the rest of the span zeroed; one
    /// that has grown, or has no slot yet, is appended on fresh sectors at
    /// the end of the data area and the location slot is repointed. The
    /// matching timestamp entry records the given write time.
    pub fn set_chunk(&mut self, chunk: Chunk, timestamp: u32) -> (r: Result<
        (),
        WorldError,
    >)
        requires
            old(self).wf(),
            chunk_level_wf(chunk.level),
        ensures
            final(self).wf(),
            final(self).x == old(self).x,
            final(self).z == old(self).z,
            ({
                let rec = record_bytes(
                    crate::zlib::zlib_deflate_fast(
                        chunk_doc_bytes(chunk.level, chunk.data_version),
                    ),
                );
                let base = slot_base(chunk.x, chunk.z);
                let off = slot_offset(old(self).locations@, base);
                let cnt = slot_count(old(self).locations@, base);
                let s_new = sectors_for(rec.len() as int);
                let fits = cnt >= 1 && s_new <= cnt && 4096 * (off + cnt) <= old(
                    self,
                ).data@.len();
                let grow_start = 4096 * sectors_for(old(self).data@.len() as int);
                match r {
                    Ok(()) => {
                        &&& crate::zlib::zlib_inflate(
                            crate::zlib::zlib_deflate_fast(
                                chunk_doc_bytes(chunk.level, chunk.data_version),
                            ),
                        ) == Some(chunk_doc_bytes(chunk.level, chunk.data_version))
                        &&& final(self).timestamps@ == write_at(
                            old(self).timestamps@,
                            base,
                            be4(timestamp as int),
                        )
                        &&& if fits {
                            &&& final(self).locations@ == old(self).locations@
                            &&& final(self).data@ == write_at(
                                old(self).data@,
                                4096 * off,
                                rec + zeros(4096 * cnt - rec.len()),
                            )
                        } else {
                            &&& final(self).locations@ == write_at(
                                old(self).locations@,
                                base,
                                be3(grow_start / 4096) + seq![s_new as u8],
                            )
                            &&& final(self).data@ == old(self).data@ + zeros(
                                grow_start - old(self).data@.len(),
                            ) + rec + zeros(4096 * s_new - rec.len())
                        }
                    },
                    Err(e) => {
                        &&& e == WorldError::RecordOutOfBounds
                        &&& *final(self) == *old(self)
                        &&& (rec.len() < 0x1_0000_0000 && s_new <= 255 && (fits || (
                        grow_start / 4096 < 0x100_0000 && grow_start + 4096 * s_new
                            <= usize::MAX))) ==> false
                    },
                }
            }),
    {
        let (off, cnt) = self.get_chunk_location(chunk.x, chunk.z);
        let base: usize = slot_base_exec(chunk.x, chunk.z);
        let doc = chunk_doc(chunk.level, chunk.data_version);
        let payload = crate::zlib::zlib_compress(doc.as_slice());
        let pl: usize = payload.len();
        if (pl as u64) >= 0xFFFF_FFFF {
            return Err(WorldError::RecordOutOfBounds);
        }
        let mut rec: Vec<u8> = Vec::new();
        crate::nbt::push_be4(&mut rec, (pl as u64) + 1);
        rec.push(2u8);
        crate::nbt::push_bytes(&mut rec, &payload);
        assert(rec@ =~= record_bytes(payload@));
        let rlen: usize = rec.len();
        let s_new64: u64 = ((rlen as u64) + 4095) / 4096;
        if s_new64 > 255 {
            return Err(WorldError::RecordOutOfBounds);
        }
        let s_new: usize = s_new64 as usize;
        assert(s_new == sectors_for(rec@.len() as int));
        proof {
            lemma_sectors_bound(rec@.len() as int);
        }
        let dlen: usize = self.data.len();
        let span_end64: u64 = ((off + cnt) as u64) * 4096;
        let fits: bool = cnt >= 1 && s_new <= cnt && span_end64 <= dlen as u64;
        let ghost data0 = self.data@;
        let ghost loc0 = self.locations@;
        let ghost ts0 = self.timestamps@;
        if fits {
            let start: usize = off * 4096;
            let mut img: Vec<u8> = Vec::new();
            crate::nbt::push_bytes(&mut img, &rec);
            push_zeros(&mut img, cnt * 4096 - rlen);
            assert(img@ =~= rec@ + zeros(4096 * cnt - rec@.len()));
            write_bytes_at(&mut self.data, start, &img);
        } else {
            proof {
                lemma_sectors_bound(dlen as int);
            }
            if (dlen as u64) > u64::MAX - 4095 {
                return Err(WorldError::RecordOutOfBounds);
            }
            let grow_start64: u64 = (((dlen as u64) + 4095) / 4096) * 4096;
            assert(grow_start64 == 4096 * sectors_for(dlen as int)) by (nonlinear_arith)
                requires
                    dlen <= u64::MAX - 4095,
                    grow_start64 == ((dlen as u64 + 4095) / 4096) * 4096,
            ;
            let new_off64: u64 = grow_start64 / 4096;
            if new_off64 >= 0x100_0000 {
                return Err(WorldError::RecordOutOfBounds);
            }
            let end64: u64 = grow_start64 + 4096 * (s_new as u64);
            if end64 > usize::MAX as u64 {
                return Err(WorldError::RecordOutOfBounds);
            }
            let grow_start: usize = grow_start64 as usize;
            let new_off: usize = new_off64 as usize;
            push_zeros(&mut self.data, grow_start - dlen);
            crate::nbt::push_bytes(&mut self.data, &rec);
            push_zeros(&mut self.data, s_new * 4096 - rlen);
            assert(self.data@ =~= data0 + zeros(grow_start - data0.len() as int) + rec@
                + zeros(4096 * s_new - rec@.len()));
            let mut slot: Vec<u8> = Vec::new();
            slot.push(((new_off / 0x1_0000) % 0x100) as u8);
            slot.push(((new_off / 0x100) % 0x100) as u8);
            slot.push((new_off % 0x100) as u8);
            slot.push(s_new as u8);
            assert(slot@ =~= be3(new_off as int) + seq![s_new as u8]);
            write_bytes_at(&mut self.locations, base, &slot);
        }
        let mut ts: Vec<u8> = Vec::new();
        crate::nbt::push_be4(&mut ts, timestamp as u64);
        write_bytes_at(&mut self.timestamps, base, &ts);
        Ok(())
    }
}

/// Computes the byte index of a chunk's slot within a header table.
fn slot_base_exec(x: isize, z: isize) -> (r: usize)
    ensures
        r == slot_base(x, z),
        r <= 4092,
{
    let xl: usize = (#[verifier::truncate] (x as usize)) & 31;
    let zl: usize = (#[verifier::truncate] (z as usize)) & 31;
    proof {
        lemma_local_range(x);
        lemma_local_range(z);
    }
    4 * (32 * zl + xl)
}

/// Big-endian bytes of a value in `[0, 2^24)`: a location slot's offset.
pub open spec fn be3(n: int) -> Seq<u8> {
    seq![((n / 0x1_0000) % 0x100) as u8, ((n / 0x100) % 0x100) as u8, (n % 0x100) as u8]
}

/// `n` zero bytes.
pub open spec fn zeros(n: int) -> Seq<u8> {
    Seq::new(n as nat, |i: int| 0u8)
}

/// `s` with the bytes of `w` written at `pos`, everything else unchanged.
pub open spec fn write_at(s: Seq<u8>, pos: int, w: Seq<u8>) -> Seq<u8> {
    Seq::new(s.len(), |i: int| if pos <= i < pos + w.len() { w[i - pos] } else { s[i] })
}

/// Sectors needed to hold `n` bytes, rounding up, never down.
pub open spec fn sectors_for(n: int) -> int {
    (n + 4095) / 4096
}

/// Rounding up to whole sectors never rounds down.
pub proof fn lemma_sectors_bound(n: int)
    by (nonlinear_arith)
    requires
        n >= 0,
    ensures
        4096 * sectors_for(n) >= n,
        sectors_for(n) >= 0,
        4096 * sectors_for(n) < n + 4096,
{
}

/// The sector span of a slot within a data area.
pub open spec fn record_slice(data: Seq<u8>, off: int, cnt: int) -> Seq<u8> {
    data.subrange(4096 * off, 4096 * (off + cnt))
}

/// The framing of a record: its scheme byte and its payload, sized by the
/// four-byte big-endian length that covers the scheme byte and payload.
pub open spec fn record_framed(s: Seq<u8>) -> Option<(u8, Seq<u8>)> {
    if s.len() < 5 {
        None
    } else {
        let l = s[0] * 0x100_0000 + s[1] * 0x1_0000 + s[2] * 0x100 + s[3];
        if l < 1 || 4 + l > s.len() {
            None
        } else {
            Some((s[4], s.subrange(5, 4 + l)))
        }
    }
}

/// The raw bytes a record decodes to: scheme 1 is the legacy gzip stream,
/// scheme 2 the zlib stream, and any other scheme byte passes the payload
/// through unchanged.
pub open spec fn record_decode(s: Seq<u8>) -> Option<Seq<u8>> {
    match record_framed(s) {
        None => None,
        Some((scheme, p)) => if scheme == 1 {
            crate::zlib::gzip_inflate(p)
        } else if scheme == 2 {
            crate::zlib::zlib_inflate(p)
        } else {
            Some(p)
        },
    }
}

/// The record written for a payload: big-endian length covering the scheme
/// byte and payload, the zlib scheme byte, then the payload.
pub open spec fn record_bytes(payload: Seq<u8>) -> Seq<u8> {
    be4(payload.len() as int + 1) + seq![2u8] + payload
}

/// Round trip of the record codec: a record built for a payload, padded to
/// its sector span with any number of zero bytes, frames back to the zlib
/// scheme and exactly that payload.
pub proof fn lemma_record_round_trip(payload: Seq<u8>, pad: int)
    requires
        pad >= 0,
        payload.len() + 1 < 0x1_0000_0000,
    ensures
        record_framed(record_bytes(payload) + zeros(pad)) == Some((2u8, payload)),
        record_decode(record_bytes(payload) + zeros(pad)) == crate::zlib::zlib_inflate(
            payload,
        ),
{
    let rec = record_bytes(payload) + zeros(pad);
    let n = payload.len() as int + 1;
    assert(rec[0] == be4(n)[0] && rec[1] == be4(n)[1] && rec[2] == be4(n)[2] && rec[3]
        == be4(n)[3] && rec[4] == 2u8);
    assert(((n / 0x100_0000) % 0x100) * 0x100_0000 + ((n / 0x1_0000) % 0x100) * 0x1_0000
        + ((n / 0x100) % 0x100) * 0x100 + (n % 0x100) == n) by (nonlinear_arith)
        requires
            0 < n < 0x1_0000_0000,
    ;
    assert(rec[0] * 0x100_0000 + rec[1] * 0x1_0000 + rec[2] * 0x100 + rec[3] == n);
    assert(rec.subrange(5, 4 + n) =~= payload);
}

/// After a write that could not stay in place, the repointed slot reads
/// back as the fresh sector offset and the grown count, and the matching
/// timestamp slot holds the write time: the four-byte images that
/// `set_chunk` stores parse back to what was allocated.
pub proof fn lemma_grow_repoints_slot(
    loc0: Seq<u8>,
    loc1: Seq<u8>,
    ts0: Seq<u8>,
    ts1: Seq<u8>,
    base: int,
    new_off: int,
    s_new: int,
    ts: u32,
)
    requires
        loc0.len() == 4096,
        ts0.len() == 4096,
        0 <= base <= 4092,
        0 <= new_off < 0x100_0000,
        0 <= s_new < 0x100,
        loc1 == write_at(loc0, base, be3(new_off) + seq![s_new as u8]),
        ts1 == write_at(ts0, base, be4(ts as int)),
    ensures
        slot_offset(loc1, base) == new_off,
        slot_count(loc1, base) == s_new,
        ts1.subrange(base, base + 4) == be4(ts as int),
{
    assert(loc1[base] == be3(new_off)[0]);
    assert(loc1[base + 1] == be3(new_off)[1]);
    assert(loc1[base + 2] == be3(new_off)[2]);
    assert(loc1[base + 3] == s_new as u8);
    assert(((new_off / 0x1_0000) % 0x100) * 0x1_0000 + ((new_off / 0x100) % 0x100) * 0x100
        + (new_off % 0x100) == new_off) by (nonlinear_arith)
        requires
            0 <= new_off < 0x100_0000,
    ;
    assert(ts1.subrange(base, base + 4) =~= be4(ts as int));
}

/// An image overwritten in place over its whole sector span is exactly
/// what the slot's record slice then holds: writing never disturbs
/// neighboring records, and reading sees the whole write.
pub proof fn lemma_overwritten_slice(data0: Seq<u8>, off: int, cnt: int, img: Seq<u8>)
    requires
        0 <= off,
        0 <= cnt,
        img.len() == 4096 * cnt,
        4096 * (off + cnt) <= data0.len(),
    ensures
        record_slice(write_at(data0, 4096 * off, img), off, cnt) == img,
{
    assert(record_slice(write_at(data0, 4096 * off, img), off, cnt) =~= img);
}

/// An image appended on fresh sectors past the old end of the data area is
/// exactly what the repointed slot's record slice then holds.
pub proof fn lemma_appended_slice(data0: Seq<u8>, grow_start: int, img: Seq<u8>, s_new: int)
    requires
        data0.len() <= grow_start,
        grow_start % 4096 == 0,
        s_new >= 0,
        img.len() == 4096 * s_new,
    ensures
        record_slice(
            data0 + zeros(grow_start - data0.len()) + img,
            grow_start / 4096,
            s_new,
        ) == img,
{
    assert(4096 * (grow_start / 4096) == grow_start);
    assert(record_slice(
        data0 + zeros(grow_start - data0.len()) + img,
        grow_start / 4096,
        s_new,
    ) =~= img);
}

/// Appends `count` zero bytes.
fn push_zeros(v: &mut Vec<u8>, count: usize)
    ensures
        final(v)@ == old(v)@ + zeros(count as int),
{
    let mut i: usize = 0;
    while i < count
        invariant
            i <= count,
            v@ == old(v)@ + zeros(i as int),
        decreases count - i,
    {
        v.push(0);
        assert(v@ =~= old(v)@ + zeros(i + 1));
        i += 1;
    }
}

/// Writes the bytes of `w` over `v` starting at `pos`.
fn write_bytes_at(v: &mut Vec<u8>, pos: usize, w: &Vec<u8>)
    requires
        pos + w@.len() <= old(v)@.len(),
    ensures
        final(v)@ == write_at(old(v)@, pos as int, w@),
{
    let total: usize = v.len();
    let mut i: usize = 0;
    while i < w.len()
        invariant
            i <= w@.len(),
            pos + w@.len() <= total,
            v@.len() == total,
            forall|k: int|
                0 <= k < v@.len() && !(pos <= k < pos + i) ==> v@[k] == old(v)@[k],
            forall|k: int| pos <= k < pos + i ==> v@[k] == w@[k - pos],
        decreases w@.len() - i,
    {
        v[pos + i] = w[i];
        i += 1;
    }
    assert(v@ =~= write_at(old(v)@, pos as int, w@));
}

/// Copies `bytes[from..to]` into a fresh vector.
fn copy_range(bytes: &[u8], from: usize, to: usize) -> (r: Vec<u8>)
    requires
        from <= to <= bytes@.len(),
    ensures
        r@ == bytes@.subrange(from as int, to as int),
{
    let mut out: Vec<u8> = Vec::new();
    let mut i: usize = from;
    while i < to
        invariant
            from <= i <= to <= bytes@.len(),
            out@ == bytes@.subrange(from as int, i as int),
        decreases to - i,
    {
        out.push(bytes[i]);
        assert(out@ =~= bytes@.subrange(from as int, i + 1));
        i += 1;
    }
    out
}

/// Decoding the encoded image of a well-formed region recovers the region:
/// the header tables byte for byte, and the data area unchanged.
pub proof fn lemma_region_round_trip(region: Region)
    requires
        region.wf(),
    ensures
        region.decodes_from(region.encode_spec(), region.x, region.z),
{
    assert(region.encode_spec().subrange(0, 4096) =~= region.locations@);
    assert(region.encode_spec().subrange(4096, 8192) =~= region.timestamps@);
    assert(region.encode_spec().skip(8192) =~= region.data@);
}

/// A byte image decodes to at most one region per coordinate pair: two
/// regions decoding from the same image agree on every field.
pub proof fn lemma_decode_unique(a: Region, b: Region, image: Seq<u8>, x: isize, z: isize)
    requires
        a.decodes_from(image, x, z),
        b.decodes_from(image, x, z),
    ensures
        a.locations@ == b.locations@,
        a.timestamps@ == b.timestamps@,
        a.data@ == b.data@,
        a.x == b.x,
        a.z == b.z,
{
}

} // verus!

