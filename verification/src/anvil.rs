//! The Anvil region container: a sector-indexed file that packs up to 1024
//! chunk payloads behind an 8 KiB directory of (offset, length) pairs.
//!
//! A region's directory holds 1024 four-byte location records (three
//! big-endian bytes of sector offset, one byte of sector count), indexed by
//! `(x mod 32) + 32 * (z mod 32)`. A chunk's body starts at byte
//! `begin_sector * 4096` and spans `sector_count * 4096` bytes, of which the
//! first five are the frame header: a big-endian payload length and a
//! compression scheme byte.

use vstd::prelude::*;
use vstd::pervasive::VecAdditionalExecFns;
use crate::bytes::{
    IoError, be_uint, enc_be, lemma_be_uint_bound, lemma_be_uint_of_enc, lemma_enc_be_len,
    lemma_pow256_values, read_be_uint,
};

verus! {

/// Bytes in one sector of a region file.
pub const SECTOR_SIZE: usize = 4096;

/// Bytes in the region header: the locations table then the timestamps table.
pub const HEADER_SIZE: usize = 8192;

/// The compression schemes a chunk frame may declare.
#[derive(Debug, Clone, Copy, PartialEq, Eq, Structural)]
pub enum CompressionScheme {
    Gzip,
    Zlib,
}

/// Failures of the region directory and frame decoding.
#[derive(Debug, Clone, Copy, PartialEq, Eq, Structural)]
pub enum Error {
    /// A chunk frame shorter than its five-byte header.
    InsufficientData,
    /// A byte-level failure of the underlying source.
    IO(IoError),
    /// A chunk coordinate outside the 32 by 32 grid.
    InvalidOffset(usize, usize),
    /// The directory slot for the requested chunk is empty.
    ChunkNotFound,
    /// A chunk frame with an unknown compression scheme byte.
    InvalidChunkMeta,
}

pub type Result<T> = core::result::Result<T, Error>;

/// A present chunk's place in the region file: it begins at byte
/// `begin_sector * 4096` and spans `sector_count * 4096` bytes.
#[derive(Debug, Clone, Copy, PartialEq, Eq, Structural)]
pub struct ChunkLocation {
    pub begin_sector: usize,
    pub sector_count: usize,
    pub x: usize,
    pub z: usize,
}

/// The five-byte chunk frame header: the payload length (which counts the
/// scheme byte, so the compressed body is `len - 1` bytes) and the scheme.
#[derive(Debug, Clone, Copy, PartialEq, Eq, Structural)]
pub struct ChunkMeta {
    pub len: u32,
    pub compression_scheme: CompressionScheme,
}

/// The compression scheme a frame's scheme byte declares, if any.
pub open spec fn spec_scheme_of(b: u8) -> Option<CompressionScheme> {
    if b == 1 {
        Some(CompressionScheme::Gzip)
    } else if b == 2 {
        Some(CompressionScheme::Zlib)
    } else {
        None
    }
}

impl ChunkMeta {
    /// Decode the five-byte frame header at the start of a chunk's sectors.
    pub fn new(data: &[u8]) -> (r: Result<ChunkMeta>)
        ensures
            data@.len() < 5 ==> r == Err::<ChunkMeta, Error>(Error::InsufficientData),
            data@.len() >= 5 ==> match spec_scheme_of(data@[4]) {
                Some(s) => r == Ok::<ChunkMeta, Error>(
                    ChunkMeta { len: be_uint(data@, 0, 4) as u32, compression_scheme: s },
                ),
                None => r == Err::<ChunkMeta, Error>(Error::InvalidChunkMeta),
            },
    {
        if data.len() < 5 {
            return Err(Error::InsufficientData);
        }
        proof {
            lemma_be_uint_bound(data@, 0, 4);
            lemma_pow256_values();
        }
        let len = read_be_uint(data, 0, 4) as u32;
        let scheme_byte = data[4];
        if scheme_byte == 1 {
            Ok(ChunkMeta { len, compression_scheme: CompressionScheme::Gzip })
        } else if scheme_byte == 2 {
            Ok(ChunkMeta { len, compression_scheme: CompressionScheme::Zlib })
        } else {
            Err(Error::InvalidChunkMeta)
        }
    }
}

/// The compressed body of a chunk frame: the `len - 1` bytes that follow
/// the five-byte header. Fails like `ChunkMeta::new` on a bad header, and
/// with an unexpected-end I/O error when the declared body runs past the
/// given bytes.
pub fn chunk_payload(data: &[u8]) -> (r: Result<&[u8]>)
    ensures
        data@.len() < 5 ==> r == Err::<&[u8], Error>(Error::InsufficientData),
        data@.len() >= 5 ==> ({
            let len = be_uint(data@, 0, 4);
            if spec_scheme_of(data@[4]) is None {
                r == Err::<&[u8], Error>(Error::InvalidChunkMeta)
            } else if len < 1 || 4 + len > data@.len() {
                r == Err::<&[u8], Error>(Error::IO(IoError::UnexpectedEof))
            } else {
                r matches Ok(body) && body@ == data@.subrange(5, 4 + len)
            }
        }),
{
    let meta = match ChunkMeta::new(data) {
        Ok(m) => m,
        Err(e) => {
            return Err(e);
        },
    };
    proof {
        lemma_be_uint_bound(data@, 0, 4);
        lemma_pow256_values();
    }
    let len = meta.len as usize;
    if len < 1 || data.len() - 4 < len {
        return Err(Error::IO(IoError::UnexpectedEof));
    }
    Ok(&data[5..4 + len])
}

/// The directory slot that holds chunk (x, z).
pub open spec fn slot_index(x: int, z: int) -> int {
    (x % 32) + 32 * (z % 32)
}

/// The four-byte directory record for a chunk at `offset` sectors spanning
/// `sectors` sectors; the offset is truncated to its low 24 bits.
pub open spec fn loc_record(offset: u32, sectors: u8) -> Seq<u8> {
    enc_be(offset as int % 0x1000000, 3).push(sectors)
}

/// What `Region::chunk_location` returns, as a function of the region bytes.
pub open spec fn spec_chunk_location(data: Seq<u8>, x: usize, z: usize) -> Result<ChunkLocation> {
    if x >= 32 || z >= 32 {
        Err(Error::InvalidOffset(x, z))
    } else {
        let pos = 4 * slot_index(x as int, z as int);
        if pos + 4 > data.len() {
            Err(Error::IO(IoError::UnexpectedEof))
        } else {
            let off = be_uint(data, pos, 3);
            let count = data[pos + 3];
            if off == 0 && count == 0 {
                Err(Error::ChunkNotFound)
            } else {
                Ok(
                    ChunkLocation {
                        begin_sector: off as usize,
                        sector_count: count as usize,
                        x,
                        z,
                    },
                )
            }
        }
    }
}

/// A region file held in memory, read through its directory.
pub struct Region {
    data: Vec<u8>,
}

impl View for Region {
    type V = Seq<u8>;

    closed spec fn view(&self) -> Seq<u8> {
        self.data@
    }
}

impl Region {
    /// Wrap a region file's bytes for directory lookups and chunk loads.
    pub fn new(data: Vec<u8>) -> (r: Region)
        ensures
            r@ == data@,
    {
        Region { data }
    }

    /// Decode the directory record for chunk (x, z).
    ///
    /// Coordinates at or beyond 32 fail with `InvalidOffset(x, z)`; a record
    /// that lies beyond the source fails with an unexpected-end I/O error; an
    /// all-zero record means the chunk is absent and fails with
    /// `ChunkNotFound`.
    pub fn chunk_location(&self, x: usize, z: usize) -> (r: Result<ChunkLocation>)
        ensures
            r == spec_chunk_location(self@, x, z),
    {
        if x >= 32 || z >= 32 {
            return Err(Error::InvalidOffset(x, z));
        }
        let pos = 4 * ((x % 32) + (z % 32) * 32);
        if pos + 4 > self.data.len() {
            return Err(Error::IO(IoError::UnexpectedEof));
        }
        let off64 = read_be_uint(self.data.as_slice(), pos, 3);
        proof {
            lemma_be_uint_bound(self@, pos as int, 3);
            lemma_pow256_values();
        }
        let off = off64 as usize;
        let count = self.data[pos + 3];
        if off == 0 && count == 0 {
            return Err(Error::ChunkNotFound);
        }
        Ok(ChunkLocation { begin_sector: off, sector_count: count as usize, x, z })
    }

    /// Fill `dest` with the chunk's sectors: the `sector_count * 4096` bytes
    /// that start at byte `begin_sector * 4096`. A span that reaches past the
    /// end of the source fails with an unexpected-end I/O error and leaves
    /// `dest` unchanged.
    pub fn load_chunk(&self, offset: &ChunkLocation, dest: &mut Vec<u8>) -> (r: Result<()>)
        ensures
            ({
                let start = offset.begin_sector * 4096;
                let n = offset.sector_count * 4096;
                if start + n > self@.len() {
                    r == Err::<(), Error>(Error::IO(IoError::UnexpectedEof)) && final(dest)@
                        == old(dest)@
                } else {
                    r == Ok::<(), Error>(()) && final(dest)@ == self@.subrange(
                        start as int,
                        start + n,
                    )
                }
            }),
    {
        let data_len = self.data.len();
        let start = match offset.begin_sector.checked_mul(SECTOR_SIZE) {
            Some(v) => v,
            None => {
                return Err(Error::IO(IoError::UnexpectedEof));
            },
        };
        let n = match offset.sector_count.checked_mul(SECTOR_SIZE) {
            Some(v) => v,
            None => {
                return Err(Error::IO(IoError::UnexpectedEof));
            },
        };
        let end = match start.checked_add(n) {
            Some(v) => v,
            None => {
                return Err(Error::IO(IoError::UnexpectedEof));
            },
        };
        if end > data_len {
            return Err(Error::IO(IoError::UnexpectedEof));
        }
        dest.clear();
        let mut i: usize = start;
        while i < end
            invariant
                start <= i <= end <= data_len == self@.len(),
                dest@ == self@.subrange(start as int, i as int),
            decreases end - i,
        {
            dest.push(self.data[i]);
            i = i + 1;
            proof {
                assert(dest@ =~= self@.subrange(start as int, i as int));
            }
        }
        Ok(())
    }
}

/// Locations in ascending `begin_sector` order: the seek-friendly order in
/// which the present chunks should be loaded.
pub open spec fn sorted_by_sector(s: Seq<ChunkLocation>) -> bool {
    forall|a: int, b: int| 0 <= a < b < s.len() ==> s[a].begin_sector <= s[b].begin_sector
}

/// Swapping two elements keeps what a sequence contains.
proof fn lemma_swap_contains(s: Seq<ChunkLocation>, i: int, j: int)
    requires
        0 <= i < s.len(),
        0 <= j < s.len(),
    ensures
        forall|w: ChunkLocation| s.update(i, s[j]).update(j, s[i]).contains(w) <==> s.contains(w),
{
    let t = s.update(i, s[j]).update(j, s[i]);
    assert forall|w: ChunkLocation| t.contains(w) implies s.contains(w) by {
        let k = choose|k: int| 0 <= k < t.len() && t[k] == w;
        if k == j {
            assert(s[i] == w);
        } else if k == i {
            assert(s[j] == w);
        } else {
            assert(s[k] == w);
        }
    }
    assert forall|w: ChunkLocation| s.contains(w) implies t.contains(w) by {
        let k = choose|k: int| 0 <= k < s.len() && s[k] == w;
        if k == i {
            assert(t[j] == w);
        } else if k == j {
            assert(t[i] == w);
        } else {
            assert(t[k] == w);
        }
    }
}

/// Sort locations by `begin_sector`, keeping exactly the same elements.
fn sort_by_begin_sector(v: &mut Vec<ChunkLocation>)
    ensures
        final(v)@.len() == old(v)@.len(),
        sorted_by_sector(final(v)@),
        forall|w: ChunkLocation| final(v)@.contains(w) <==> old(v)@.contains(w),
{
    let len = v.len();
    let mut i: usize = 1;
    while i < len
        invariant
            1 <= i <= len || len == 0,
            len == v@.len(),
            forall|a: int, b: int| 0 <= a < b < i ==> v@[a].begin_sector <= v@[b].begin_sector,
            forall|w: ChunkLocation| v@.contains(w) <==> old(v)@.contains(w),
        decreases len - i,
    {
        let mut j: usize = i;
        while j > 0 && v[j - 1].begin_sector > v[j].begin_sector
            invariant
                0 <= j <= i < len == v@.len(),
                forall|a: int, b: int|
                    0 <= a < b <= i && b != j ==> v@[a].begin_sector <= v@[b].begin_sector,
                forall|w: ChunkLocation| v@.contains(w) <==> old(v)@.contains(w),
            decreases j,
        {
            let ghost pre = v@;
            let a = v[j - 1];
            let b = v[j];
            v.set(j - 1, b);
            v.set(j, a);
            proof {
                assert(v@ =~= pre.update(j - 1, pre[j as int]).update(j as int, pre[j - 1]));
                lemma_swap_contains(pre, j - 1, j as int);
            }
            j = j - 1;
        }
        i = i + 1;
    }
}

/// An append-only fixture that lays out region bytes record by record.
pub struct Builder {
    inner: Vec<u8>,
}

impl View for Builder {
    type V = Seq<u8>;

    closed spec fn view(&self) -> Seq<u8> {
        self.inner@
    }
}

impl Builder {
    /// An empty builder.
    pub fn new() -> (b: Builder)
        ensures
            b@ == Seq::<u8>::empty(),
    {
        Builder { inner: Vec::new() }
    }

    /// Append one directory record: three big-endian bytes of `offset`
    /// (truncated to 24 bits) followed by the sector count.
    pub fn location(self, offset: u32, sectors: u8) -> (r: Builder)
        ensures
            r@ == self@ + loc_record(offset, sectors),
    {
        let mut b = self;
        let v = offset % 0x1000000;
        b.inner.push((v / 65536) as u8);
        b.inner.push(((v / 256) % 256) as u8);
        b.inner.push((v % 256) as u8);
        b.inner.push(sectors);
        proof {
            reveal_with_fuel(enc_be, 4);
            assert((v as int / 256) / 256 == v as int / 65536) by (nonlinear_arith);
            assert(b@ =~= self@ + loc_record(offset, sectors));
        }
        b
    }

    /// The built bytes, zero-padded to the next whole sector.
    pub fn build(self) -> (r: Vec<u8>)
        requires
            self@.len() + 4096 <= usize::MAX,
        ensures
            r@.len() == (self@.len() / 4096 + 1) * 4096,
            r@.subrange(0, self@.len() as int) == self@,
            forall|i: int| self@.len() <= i < r@.len() ==> r@[i] == 0u8,
    {
        let mut inner = self.inner;
        let len = inner.len();
        proof {
            assert(len / 4096 * 4096 <= len < (len / 4096 + 1) * 4096) by (nonlinear_arith);
        }
        let padded = (len / 4096 + 1) * 4096;
        while inner.len() < padded
            invariant
                len <= inner@.len() <= padded,
                inner@.subrange(0, len as int) == self@,
                forall|i: int| len <= i < inner@.len() ==> inner@[i] == 0u8,
            decreases padded - inner@.len(),
        {
            inner.push(0u8);
            proof {
                assert(inner@.subrange(0, len as int) =~= self@);
            }
        }
        proof {
            assert(inner@.subrange(0, len as int) =~= self@);
        }
        inner
    }

    /// The built bytes exactly as appended, without sector padding.
    pub fn build_unpadded(self) -> (r: Vec<u8>)
        ensures
            r@ == self@,
    {
        self.inner
    }
}

impl Region {
    /// Every present chunk's location, in ascending `begin_sector` order: the
    /// seek-friendly order in which iteration over a region should load its
    /// chunks. The result holds exactly the locations that `chunk_location`
    /// returns for some coordinate pair.
    pub fn present_chunks(&self) -> (r: Vec<ChunkLocation>)
        ensures
            sorted_by_sector(r@),
            forall|i: int|
                0 <= i < r@.len() ==> (#[trigger] spec_chunk_location(
                    self@,
                    r@[i].x,
                    r@[i].z,
                )) == Ok::<ChunkLocation, Error>(r@[i]),
            forall|x: usize, z: usize|
                x < 32 && z < 32 && (#[trigger] spec_chunk_location(self@, x, z)) is Ok
                    ==> r@.contains(spec_chunk_location(self@, x, z)->Ok_0),
    {
        let mut out: Vec<ChunkLocation> = Vec::new();
        let mut idx: usize = 0;
        while idx < 1024
            invariant
                idx <= 1024,
                forall|i: int|
                    0 <= i < out@.len() ==> (#[trigger] spec_chunk_location(
                        self@,
                        out@[i].x,
                        out@[i].z,
                    )) == Ok::<ChunkLocation, Error>(out@[i]),
                forall|x: usize, z: usize|
                    x < 32 && z < 32 && x + 32 * z < idx && (#[trigger] spec_chunk_location(
                        self@,
                        x,
                        z,
                    )) is Ok ==> out@.contains(spec_chunk_location(self@, x, z)->Ok_0),
            decreases 1024 - idx,
        {
            let x = idx % 32;
            let z = idx / 32;
            let ghost pre = out@;
            match self.chunk_location(x, z) {
                Ok(loc) => {
                    out.push(loc);
                    proof {
                        assert(out@[pre.len() as int] == loc);
                        assert(forall|w: ChunkLocation|
                            pre.contains(w) ==> #[trigger] out@.contains(w)) by {
                            assert(forall|k: int|
                                0 <= k < pre.len() ==> out@[k] == #[trigger] pre[k]);
                        }
                    }
                },
                Err(_) => {},
            }
            idx = idx + 1;
        }
        let ghost unsorted = out@;
        sort_by_begin_sector(&mut out);
        proof {
            assert forall|i: int| 0 <= i < out@.len() implies (#[trigger] spec_chunk_location(
                self@,
                out@[i].x,
                out@[i].z,
            )) == Ok::<ChunkLocation, Error>(out@[i]) by {
                let w = out@[i];
                assert(out@.contains(w));
                assert(unsorted.contains(w));
                let k = choose|k: int| 0 <= k < unsorted.len() && unsorted[k] == w;
            }
        }
        out
    }
}

/// A directory record written for chunk (x, z) is read back exactly: a region
/// whose slot holds `(offset, sectors)`, not both zero, yields a
/// `ChunkLocation` with those values and with the queried coordinates.
pub proof fn lemma_location_round_trip(
    data: Seq<u8>,
    x: usize,
    z: usize,
    offset: u32,
    sectors: u8,
)
    requires
        x < 32,
        z < 32,
        offset < 0x1000000,
        !(offset == 0 && sectors == 0),
        4 * slot_index(x as int, z as int) + 4 <= data.len(),
        data.subrange(
            4 * slot_index(x as int, z as int),
            4 * slot_index(x as int, z as int) + 4,
        ) == loc_record(offset, sectors),
    ensures
        spec_chunk_location(data, x, z) == Ok::<ChunkLocation, Error>(
            ChunkLocation {
                begin_sector: offset as usize,
                sector_count: sectors as usize,
                x,
                z,
            },
        ),
{
    let pos = 4 * slot_index(x as int, z as int);
    let sub = data.subrange(pos, pos + 4);
    lemma_enc_be_len(offset as int % 0x1000000, 3);
    assert(offset as int % 0x1000000 == offset as int);
    assert(data[pos + 3] == sub[3]);
    assert(sub[3] == sectors);
    assert(data.subrange(pos, pos + 3) =~= enc_be(offset as int, 3)) by {
        assert forall|i: int| 0 <= i < 3 implies #[trigger] data.subrange(pos, pos + 3)[i]
            == enc_be(offset as int, 3)[i] by {
            assert(data.subrange(pos, pos + 3)[i] == sub[i]);
            assert(sub[i] == loc_record(offset, sectors)[i]);
        }
    }
    lemma_pow256_values();
    lemma_be_uint_of_enc(data, pos, offset as int, 3);
}

} // verus!
