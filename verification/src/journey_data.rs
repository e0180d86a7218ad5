use crate::journey_bitmap::JourneyBitmap;
use crate::journey_bitmap::Tile;
use crate::journey_bitmap::MAP_WIDTH;
use crate::journey_bitmap::MAX_TILE_KEY;
use crate::journey_bitmap::TILE_BITS;
use crate::journey_bitmap::assoc_map;
use crate::journey_bitmap::entries_wf;
use crate::journey_bitmap::keys_sorted;
use vstd::prelude::*;

verus! {

/// First magic byte of a serialized bitmap blob.
pub const MAGIC0: u8 = 0x4A;

/// Second magic byte of a serialized bitmap blob.
pub const MAGIC1: u8 = 0x42;

/// Format version this codec reads and writes.
pub const FORMAT_VERSION: u8 = 1;

/// Bytes taken by the fixed blob prefix: magic, version, tile count.
pub const HEADER_BASE: u32 = 7;

/// Bytes taken by one tile directory entry: x, y, offset, length.
pub const ENTRY_BYTES: u32 = 12;

/// What a decode can report.
#[derive(Debug, PartialEq, Eq, Structural, Clone, Copy)]
pub enum CodecError {
    /// The blob is truncated, mis-tagged, or its directory is inconsistent.
    MalformedBlob,
    /// The blob carries a format version this codec does not read.
    UnsupportedVersion,
    /// The payload of the tile at the carried grid position is corrupt.
    TileDecompressionFailed(u16, u16),
}

/// Where a tile's payload lives inside a blob.
#[derive(Debug, PartialEq, Eq, Structural, Clone, Copy)]
pub struct TileLocation {
    pub offset: usize,
    pub length: usize,
}

/// The 16-bit little-endian value at byte position `p`.
pub open spec fn le16(b: Seq<u8>, p: int) -> int {
    b[p] + 0x100 * b[p + 1]
}

/// The 32-bit little-endian value at byte position `p`.
pub open spec fn le32(b: Seq<u8>, p: int) -> int {
    b[p] + 0x100 * b[p + 1] + 0x10000 * b[p + 2] + 0x1000000 * b[p + 3]
}

/// Number of tiles a blob's header announces.
pub open spec fn blob_count(b: Seq<u8>) -> int {
    le32(b, 3)
}

/// Total size of the blob prefix holding `count` directory entries.
pub open spec fn header_len(count: int) -> int {
    HEADER_BASE + ENTRY_BYTES * count
}

/// Grid x coordinate of directory entry `i`.
pub open spec fn entry_x(b: Seq<u8>, i: int) -> int {
    le16(b, HEADER_BASE + ENTRY_BYTES * i)
}

/// Grid y coordinate of directory entry `i`.
pub open spec fn entry_y(b: Seq<u8>, i: int) -> int {
    le16(b, HEADER_BASE + ENTRY_BYTES * i + 2)
}

/// Tile key of directory entry `i`.
pub open spec fn entry_key(b: Seq<u8>, i: int) -> int {
    entry_x(b, i) * MAP_WIDTH + entry_y(b, i)
}

/// Payload offset of directory entry `i`.
pub open spec fn entry_off(b: Seq<u8>, i: int) -> int {
    le32(b, HEADER_BASE + ENTRY_BYTES * i + 4)
}

/// Payload length of directory entry `i`.
pub open spec fn entry_len(b: Seq<u8>, i: int) -> int {
    le32(b, HEADER_BASE + ENTRY_BYTES * i + 8)
}

/// The blob starts with the expected magic bytes.
pub open spec fn magic_ok(b: Seq<u8>) -> bool {
    b.len() >= 3 && b[0] == MAGIC0 && b[1] == MAGIC1
}

/// Directory entry `i` is structurally sound and in key order.
pub open spec fn entry_wf(b: Seq<u8>, i: int) -> bool {
    &&& entry_x(b, i) < MAP_WIDTH
    &&& entry_y(b, i) < MAP_WIDTH
    &&& entry_off(b, i) >= header_len(blob_count(b))
    &&& entry_off(b, i) + entry_len(b, i) <= b.len()
    &&& (i > 0 ==> entry_key(b, i - 1) < entry_key(b, i))
}

/// The blob's tile directory parses: magic, version, and a complete,
/// in-bounds, key-sorted entry table.
pub open spec fn index_wf(b: Seq<u8>) -> bool {
    &&& magic_ok(b)
    &&& b[2] == FORMAT_VERSION
    &&& b.len() >= HEADER_BASE
    &&& header_len(blob_count(b)) <= b.len()
    &&& forall|i: int| 0 <= i < blob_count(b) ==> entry_wf(b, i)
}

/// The parsed directory: one `(key, offset, length)` triple per entry.
pub open spec fn index_seq(b: Seq<u8>) -> Seq<(int, int, int)> {
    Seq::new(blob_count(b) as nat, |i: int| (entry_key(b, i), entry_off(b, i), entry_len(b, i)))
}

/// The presence bits encoded by a tile payload: one byte per bit, nonzero set.
pub open spec fn decode_payload(p: Seq<u8>) -> Seq<bool> {
    Seq::new(TILE_BITS as nat, |j: int| p[j] != 0)
}

/// The tile map described by the first `cnt` entries of a blob's directory.
pub open spec fn blob_map_upto(b: Seq<u8>, cnt: int) -> Map<int, Seq<bool>>
    decreases cnt,
{
    if cnt <= 0 {
        Map::empty()
    } else {
        blob_map_upto(b, cnt - 1).insert(
            entry_key(b, cnt - 1),
            decode_payload(b.subrange(entry_off(b, cnt - 1), entry_off(b, cnt - 1) + TILE_BITS)),
        )
    }
}

/// The tile map a well-formed blob describes.
pub open spec fn blob_map(b: Seq<u8>) -> Map<int, Seq<bool>> {
    blob_map_upto(b, blob_count(b))
}

/// The tile map formed by the decodable entries alone: directory entries
/// whose length field names a complete payload. Entries with any other
/// length are passed over, as a per-tile decode of them would fail.
pub open spec fn decodable_map_upto(b: Seq<u8>, cnt: int) -> Map<int, Seq<bool>>
    decreases cnt,
{
    if cnt <= 0 {
        Map::empty()
    } else {
        let m0 = decodable_map_upto(b, cnt - 1);
        if entry_len(b, cnt - 1) == TILE_BITS {
            m0.insert(
                entry_key(b, cnt - 1),
                decode_payload(
                    b.subrange(entry_off(b, cnt - 1), entry_off(b, cnt - 1) + TILE_BITS),
                ),
            )
        } else {
            m0
        }
    }
}

/// The tile map of every decodable entry of a blob.
pub open spec fn decodable_map(b: Seq<u8>) -> Map<int, Seq<bool>> {
    decodable_map_upto(b, blob_count(b))
}

/// When every payload is complete, the decodable entries are all of them.
pub proof fn lemma_decodable_is_blob_map(b: Seq<u8>, cnt: int)
    requires
        payloads_wf(b),
        cnt <= blob_count(b),
    ensures
        decodable_map_upto(b, cnt) == blob_map_upto(b, cnt),
    decreases cnt,
{
    if cnt > 0 {
        lemma_decodable_is_blob_map(b, cnt - 1);
    }
}

/// Every raster the decodable map holds is complete.
pub proof fn lemma_decodable_values_len(b: Seq<u8>, cnt: int)
    ensures
        forall|k: int|
            #[trigger] decodable_map_upto(b, cnt).contains_key(k) ==> decodable_map_upto(
                b,
                cnt,
            )[k].len() == TILE_BITS,
    decreases cnt,
{
    if cnt > 0 {
        lemma_decodable_values_len(b, cnt - 1);
        assert forall|k: int| #[trigger] decodable_map_upto(b, cnt).contains_key(
            k,
        ) implies decodable_map_upto(b, cnt)[k].len() == TILE_BITS by {
            if entry_len(b, cnt - 1) == TILE_BITS && k == entry_key(b, cnt - 1) {
            } else {
                assert(decodable_map_upto(b, cnt - 1).contains_key(k));
                assert(decodable_map_upto(b, cnt)[k] == decodable_map_upto(b, cnt - 1)[k]);
            }
        }
    }
}

/// Every payload the directory names has exactly one byte per tile bit.
pub open spec fn payloads_wf(b: Seq<u8>) -> bool {
    forall|i: int| 0 <= i < blob_count(b) ==> entry_len(b, i) == TILE_BITS
}

/// The parsed tile directory of a blob, in blob order.
#[derive(Debug)]
pub struct TileIndex {
    entries: Vec<(u16, u16, TileLocation)>,
}

impl TileIndex {
    /// One `(key, offset, length)` triple per directory entry.
    pub closed spec fn view(&self) -> Seq<(int, int, int)> {
        Seq::new(
            self.entries@.len(),
            |i: int|
                (
                    self.entries@[i].0 * MAP_WIDTH + self.entries@[i].1,
                    self.entries@[i].2.offset as int,
                    self.entries@[i].2.length as int,
                ),
        )
    }

    pub closed spec fn wf(&self) -> bool {
        forall|i: int|
            0 <= i < self@.len() ==> 0 <= (#[trigger] self@[i]).0 < MAX_TILE_KEY && (i > 0
                ==> self@[i - 1].0 < self@[i].0) && (#[trigger] self.entries@[i]).0 < MAP_WIDTH
                && self.entries@[i].1 < MAP_WIDTH
    }

    pub fn num_entries(&self) -> (n: usize)
        ensures
            n == self@.len(),
    {
        self.entries.len()
    }

    /// The grid position and location of directory entry `i`.
    pub fn entry(&self, i: usize) -> (r: (u16, u16, TileLocation))
        requires
            self.wf(),
            i < self@.len(),
        ensures
            r.0 < MAP_WIDTH,
            r.1 < MAP_WIDTH,
            r.0 * MAP_WIDTH + r.1 == self@[i as int].0,
            r.2.offset == self@[i as int].1,
            r.2.length == self@[i as int].2,
    {
        proof {
            assert(0 <= self@[i as int].0 < MAX_TILE_KEY);
        }
        self.entries[i]
    }

    /// Where the tile at grid position `(x, y)` lives, if the directory lists it.
    pub fn lookup(&self, x: u16, y: u16) -> (r: Option<TileLocation>)
        requires
            self.wf(),
            x < MAP_WIDTH,
            y < MAP_WIDTH,
        ensures
            match r {
                Some(loc) => exists|i: int|
                    0 <= i < self@.len() && #[trigger] self@[i] == (
                        x * MAP_WIDTH + y,
                        loc.offset as int,
                        loc.length as int,
                    ),
                None => forall|i: int|
                    0 <= i < self@.len() ==> (#[trigger] self@[i]).0 != x * MAP_WIDTH + y,
            },
    {
        let key: u32 = (x as u32) * MAP_WIDTH + (y as u32);
        let n = self.entries.len();
        let mut i: usize = 0;
        while i < n
            invariant
                n == self.entries@.len(),
                n == self@.len(),
                x < MAP_WIDTH,
                y < MAP_WIDTH,
                key == x * MAP_WIDTH + y,
                i <= n,
                forall|j: int| 0 <= j < i ==> (#[trigger] self@[j]).0 != key,
            decreases n - i,
        {
            let e = self.entries[i];
            let ekey: u32 = (e.0 as u32) * MAP_WIDTH + (e.1 as u32);
            proof {
                assert(ekey == self@[i as int].0);
            }
            if ekey == key {
                proof {
                    assert(self@[i as int] == (
                        x * MAP_WIDTH + y,
                        e.2.offset as int,
                        e.2.length as int,
                    ));
                }
                return Some(e.2);
            }
            i += 1;
        }
        None
    }
}

/// Read the 16-bit little-endian value at `p`.
fn read_u16(b: &[u8], p: usize) -> (r: u16)
    requires
        p + 2 <= b@.len(),
    ensures
        r == le16(b@, p as int),
        r < 0x10000,
{
    (b[p] as u16) + 0x100 * (b[p + 1] as u16)
}

/// Read the 32-bit little-endian value at `p`.
fn read_u32(b: &[u8], p: usize) -> (r: u32)
    requires
        p + 4 <= b@.len(),
    ensures
        r == le32(b@, p as int),
{
    (b[p] as u32) + 0x100 * (b[p + 1] as u32) + 0x10000 * (b[p + 2] as u32) + 0x1000000 * (b[p
        + 3] as u32)
}

/// Parse a blob's tile directory without touching any tile payload.
/// Cost is proportional to the directory, not to the payloads.
pub fn parse_tile_index(bytes: &[u8]) -> (r: Result<TileIndex, CodecError>)
    ensures
        match r {
            Ok(idx) => index_wf(bytes@) && idx.wf() && idx@ == index_seq(bytes@),
            Err(CodecError::UnsupportedVersion) => magic_ok(bytes@) && bytes@[2] != FORMAT_VERSION,
            Err(CodecError::MalformedBlob) => !index_wf(bytes@) && !(magic_ok(bytes@) && bytes@[2]
                != FORMAT_VERSION),
            Err(CodecError::TileDecompressionFailed(_, _)) => false,
        },
{
    let blen = bytes.len();
    if blen < 3 {
        return Err(CodecError::MalformedBlob);
    }
    if bytes[0] != MAGIC0 || bytes[1] != MAGIC1 {
        return Err(CodecError::MalformedBlob);
    }
    if bytes[2] != FORMAT_VERSION {
        return Err(CodecError::UnsupportedVersion);
    }
    if blen < HEADER_BASE as usize {
        return Err(CodecError::MalformedBlob);
    }
    let count = read_u32(bytes, 3);
    let need: u64 = (HEADER_BASE as u64) + (ENTRY_BYTES as u64) * (count as u64);
    proof {
        assert(need == header_len(count as int)) by (nonlinear_arith)
            requires
                need == 7 + 12 * (count as u64),
                count >= 0,
        ;
    }
    if need > blen as u64 {
        proof {
            assert(!index_wf(bytes@));
        }
        return Err(CodecError::MalformedBlob);
    }
    let mut entries: Vec<(u16, u16, TileLocation)> = Vec::new();
    let mut i: usize = 0;
    while i < count as usize
        invariant
            blen == bytes@.len(),
            magic_ok(bytes@),
            bytes@[2] == FORMAT_VERSION,
            blen >= HEADER_BASE,
            count == blob_count(bytes@),
            need == header_len(count as int),
            need <= blen,
            header_len(count as int) <= blen,
            i <= count,
            entries@.len() == i,
            forall|j: int| 0 <= j < i ==> entry_wf(bytes@, j),
            forall|j: int|
                0 <= j < i ==> (#[trigger] entries@[j]).0 == entry_x(bytes@, j) && entries@[j].1
                    == entry_y(bytes@, j) && entries@[j].2.offset == entry_off(bytes@, j)
                    && entries@[j].2.length == entry_len(bytes@, j) && entries@[j].0 < MAP_WIDTH
                    && entries@[j].1 < MAP_WIDTH,
        decreases count - i,
    {
        let base = HEADER_BASE as usize + ENTRY_BYTES as usize * i;
        proof {
            assert(base + 12 <= blen) by (nonlinear_arith)
                requires
                    base == HEADER_BASE + ENTRY_BYTES * i,
                    i < count,
                    header_len(count as int) <= blen,
            ;
        }
        let x = read_u16(bytes, base);
        let y = read_u16(bytes, base + 2);
        let off = read_u32(bytes, base + 4);
        let len = read_u32(bytes, base + 8);
        proof {
            assert(base as int == HEADER_BASE + ENTRY_BYTES * (i as int));
            assert(x == entry_x(bytes@, i as int));
            assert(y == entry_y(bytes@, i as int));
            assert(off == entry_off(bytes@, i as int));
            assert(len == entry_len(bytes@, i as int));
        }
        if x >= MAP_WIDTH as u16 || y >= MAP_WIDTH as u16 {
            proof {
                assert(!entry_wf(bytes@, i as int));
            }
            return Err(CodecError::MalformedBlob);
        }
        if (off as u64) < need || (off as u64) + (len as u64) > blen as u64 {
            proof {
                assert(!entry_wf(bytes@, i as int));
            }
            return Err(CodecError::MalformedBlob);
        }
        let key: u32 = (x as u32) * MAP_WIDTH + (y as u32);
        if i > 0 {
            let prev = entries[i - 1];
            let pkey: u32 = (prev.0 as u32) * MAP_WIDTH + (prev.1 as u32);
            if pkey >= key {
                proof {
                    assert(entry_key(bytes@, i as int - 1) == pkey);
                    assert(!entry_wf(bytes@, i as int));
                }
                return Err(CodecError::MalformedBlob);
            }
        }
        entries.push((x, y, TileLocation { offset: off as usize, length: len as usize }));
        i += 1;
    }
    let idx = TileIndex { entries };
    proof {
        assert(idx@ =~= index_seq(bytes@));
        assert forall|j: int| 0 <= j < idx@.len() implies 0 <= (#[trigger] idx@[j]).0
            < MAX_TILE_KEY && (j > 0 ==> idx@[j - 1].0 < idx@[j].0) by {
            assert(entry_wf(bytes@, j));
            if j > 0 {
                assert(entry_wf(bytes@, j));
            }
        }
    }
    Ok(idx)
}


/// Byte `k` of the 32-bit little-endian encoding of `v`.
pub open spec fn u32_byte(v: int, k: int) -> u8 {
    if k == 0 {
        (v % 0x100) as u8
    } else if k == 1 {
        ((v / 0x100) % 0x100) as u8
    } else if k == 2 {
        ((v / 0x10000) % 0x100) as u8
    } else {
        ((v / 0x1000000) % 0x100) as u8
    }
}

/// Total size in bytes of the blob serializing `n` tiles.
pub open spec fn blob_size(n: int) -> int {
    header_len(n) + TILE_BITS * n
}

/// Payload offset of the `i`-th tile in a canonical blob of `n` tiles.
pub open spec fn canon_off(n: int, i: int) -> int {
    header_len(n) + TILE_BITS * i
}

/// The byte at position `p` of the canonical serialization of the entries `s`.
pub open spec fn ser_byte(s: Seq<(u32, Tile)>, p: int) -> u8 {
    let n = s.len() as int;
    if p == 0 {
        MAGIC0
    } else if p == 1 {
        MAGIC1
    } else if p == 2 {
        FORMAT_VERSION
    } else if p < 7 {
        u32_byte(n, p - 3)
    } else if p < header_len(n) {
        let i = (p - 7) / 12;
        let o = (p - 7) % 12;
        let x = s[i].0 / MAP_WIDTH;
        let y = s[i].0 % MAP_WIDTH;
        if o == 0 {
            u32_byte(x as int, 0)
        } else if o == 1 {
            u32_byte(x as int, 1)
        } else if o == 2 {
            u32_byte(y as int, 0)
        } else if o == 3 {
            u32_byte(y as int, 1)
        } else if o < 8 {
            u32_byte(canon_off(n, i), o - 4)
        } else {
            u32_byte(TILE_BITS as int, o - 8)
        }
    } else {
        let i = (p - header_len(n)) / (TILE_BITS as int);
        let j = (p - header_len(n)) % (TILE_BITS as int);
        if s[i].1@[j] {
            1u8
        } else {
            0u8
        }
    }
}

/// The canonical serialization of the entries `s`.
pub open spec fn ser_bytes(s: Seq<(u32, Tile)>) -> Seq<u8> {
    Seq::new(blob_size(s.len() as int) as nat, |p: int| ser_byte(s, p))
}

/// Reassembling the four little-endian bytes of `v` yields `v`.
proof fn lemma_le32_recompose(v: int)
    requires
        0 <= v < 0x1_0000_0000,
    ensures
        v % 0x100 + 0x100 * ((v / 0x100) % 0x100) + 0x10000 * ((v / 0x10000) % 0x100) + 0x1000000
            * ((v / 0x1000000) % 0x100) == v,
{
    assert(v % 0x100 + 0x100 * ((v / 0x100) % 0x100) + 0x10000 * ((v / 0x10000) % 0x100)
        + 0x1000000 * ((v / 0x1000000) % 0x100) == v) by (nonlinear_arith)
        requires
            0 <= v < 0x1_0000_0000,
    ;
}

/// Reassembling the two little-endian bytes of a 16-bit `v` yields `v`.
proof fn lemma_le16_recompose(v: int)
    requires
        0 <= v < 0x10000,
    ensures
        v % 0x100 + 0x100 * ((v / 0x100) % 0x100) == v,
{
    assert(v % 0x100 + 0x100 * ((v / 0x100) % 0x100) == v) by (nonlinear_arith)
        requires
            0 <= v < 0x10000,
    ;
}



/// How one directory entry of a canonical blob reads back.
proof fn lemma_ser_entry(s: Seq<(u32, Tile)>, i: int)
    requires
        entries_wf(s),
        s.len() <= MAX_TILE_KEY,
        0 <= i < s.len(),
    ensures
        entry_x(ser_bytes(s), i) == s[i].0 / MAP_WIDTH,
        entry_y(ser_bytes(s), i) == s[i].0 % MAP_WIDTH,
        entry_key(ser_bytes(s), i) == s[i].0,
        entry_off(ser_bytes(s), i) == canon_off(s.len() as int, i),
        entry_len(ser_bytes(s), i) == TILE_BITS,
{
    let b = ser_bytes(s);
    let n = s.len() as int;
    let x = s[i].0 / MAP_WIDTH;
    let y = s[i].0 % MAP_WIDTH;
    assert(s[i].0 < MAX_TILE_KEY);
    assert(x < MAP_WIDTH && 0 <= y < MAP_WIDTH) by (nonlinear_arith)
        requires
            s[i].0 < MAX_TILE_KEY,
            x == s[i].0 / MAP_WIDTH,
            y == s[i].0 % MAP_WIDTH,
    ;
    assert(0 <= canon_off(n, i) < 0x1_0000_0000) by (nonlinear_arith)
        requires
            0 <= i < n <= MAX_TILE_KEY,
            canon_off(n, i) == 7 + 12 * n + 4096 * i,
    ;
    assert(12 * i + 11 < 12 * n) by (nonlinear_arith)
        requires
            0 <= i < n,
    ;
    vstd::arithmetic::div_mod::lemma_fundamental_div_mod_converse(12 * i + 0, 12, i, 0);
    vstd::arithmetic::div_mod::lemma_fundamental_div_mod_converse(12 * i + 1, 12, i, 1);
    vstd::arithmetic::div_mod::lemma_fundamental_div_mod_converse(12 * i + 2, 12, i, 2);
    vstd::arithmetic::div_mod::lemma_fundamental_div_mod_converse(12 * i + 3, 12, i, 3);
    vstd::arithmetic::div_mod::lemma_fundamental_div_mod_converse(12 * i + 4, 12, i, 4);
    vstd::arithmetic::div_mod::lemma_fundamental_div_mod_converse(12 * i + 5, 12, i, 5);
    vstd::arithmetic::div_mod::lemma_fundamental_div_mod_converse(12 * i + 6, 12, i, 6);
    vstd::arithmetic::div_mod::lemma_fundamental_div_mod_converse(12 * i + 7, 12, i, 7);
    vstd::arithmetic::div_mod::lemma_fundamental_div_mod_converse(12 * i + 8, 12, i, 8);
    vstd::arithmetic::div_mod::lemma_fundamental_div_mod_converse(12 * i + 9, 12, i, 9);
    vstd::arithmetic::div_mod::lemma_fundamental_div_mod_converse(12 * i + 10, 12, i, 10);
    vstd::arithmetic::div_mod::lemma_fundamental_div_mod_converse(12 * i + 11, 12, i, 11);
    lemma_le16_recompose(x as int);
    lemma_le16_recompose(y as int);
    lemma_le32_recompose(canon_off(n, i));
    lemma_le32_recompose(TILE_BITS as int);
    vstd::arithmetic::div_mod::lemma_fundamental_div_mod(s[i].0 as int, MAP_WIDTH as int);
}

/// How the `i`-th payload of a canonical blob reads back.
proof fn lemma_ser_payload(s: Seq<(u32, Tile)>, i: int)
    requires
        entries_wf(s),
        s.len() <= MAX_TILE_KEY,
        0 <= i < s.len(),
    ensures
        decode_payload(
            ser_bytes(s).subrange(
                canon_off(s.len() as int, i),
                canon_off(s.len() as int, i) + TILE_BITS,
            ),
        ) == s[i].1@,
{
    let b = ser_bytes(s);
    let n = s.len() as int;
    let off = canon_off(n, i);
    let h = header_len(n);
    assert(off + TILE_BITS <= blob_size(n)) by (nonlinear_arith)
        requires
            0 <= i < n,
            off == 7 + 12 * n + 4096 * i,
            blob_size(n) == 7 + 12 * n + 4096 * n,
    ;
    let sub = b.subrange(off, off + TILE_BITS as int);
    assert forall|j: int| 0 <= j < TILE_BITS implies sub[j] == (if s[i].1@[j] {
        1u8
    } else {
        0u8
    }) by {
        assert(sub[j] == b[off + j]);
        assert(b[off + j] == ser_byte(s, off + j));
        assert(4096 * i + j < 4096 * n && 4096 * i + j >= 0) by (nonlinear_arith)
            requires
                0 <= i < n,
                0 <= j < 4096,
        ;
        assert(off + j >= h);
        vstd::arithmetic::div_mod::lemma_fundamental_div_mod_converse(
            4096 * i + j,
            4096,
            i,
            j,
        );
        assert((off + j - h) / 4096 == i && (off + j - h) % 4096 == j);
    }
    assert(decode_payload(sub) =~= s[i].1@);
}

/// What the canonical serialization of a well-formed entry list guarantees:
/// the directory parses, every payload is complete, keys read back exactly,
/// and decoding rebuilds the serialized map.
#[verifier::rlimit(100)]
pub proof fn lemma_serialize_facts(s: Seq<(u32, Tile)>)
    requires
        keys_sorted(s),
        entries_wf(s),
    ensures
        ser_bytes(s).len() == blob_size(s.len() as int),
        index_wf(ser_bytes(s)),
        payloads_wf(ser_bytes(s)),
        blob_count(ser_bytes(s)) == s.len(),
        forall|i: int|
            0 <= i < s.len() ==> #[trigger] entry_key(ser_bytes(s), i) == s[i].0 && entry_off(
                ser_bytes(s),
                i,
            ) == canon_off(s.len() as int, i) && entry_len(ser_bytes(s), i) == TILE_BITS,
        forall|i: int|
            0 <= i < s.len() ==> #[trigger] decode_payload(
                ser_bytes(s).subrange(
                    entry_off(ser_bytes(s), i),
                    entry_off(ser_bytes(s), i) + TILE_BITS,
                ),
            ) == s[i].1@,
        blob_map(ser_bytes(s)) == assoc_map(s),
{
    let b = ser_bytes(s);
    let n = s.len() as int;
    crate::journey_bitmap::lemma_sorted_len_bound(s);
    lemma_le32_recompose(n);
    assert(blob_count(b) == n);
    assert forall|i: int| 0 <= i < n implies #[trigger] entry_key(b, i) == s[i].0 && entry_off(
        b,
        i,
    ) == canon_off(n, i) && entry_len(b, i) == TILE_BITS by {
        lemma_ser_entry(s, i);
    }
    assert forall|i: int| 0 <= i < n implies #[trigger] decode_payload(
        b.subrange(entry_off(b, i), entry_off(b, i) + TILE_BITS),
    ) == s[i].1@ by {
        lemma_ser_entry(s, i);
        lemma_ser_payload(s, i);
    }
    assert forall|i: int| 0 <= i < n implies entry_wf(b, i) by {
        lemma_ser_entry(s, i);
        assert(canon_off(n, i) >= header_len(n) && canon_off(n, i) + TILE_BITS <= blob_size(n))
            by (nonlinear_arith)
            requires
                0 <= i < n,
                canon_off(n, i) == 7 + 12 * n + 4096 * i,
                header_len(n) == 7 + 12 * n,
                blob_size(n) == 7 + 12 * n + 4096 * n,
        ;
        if i > 0 {
            lemma_ser_entry(s, i - 1);
            assert(s[i - 1].0 < s[i].0);
        }
    }
    assert(header_len(n) <= blob_size(n)) by (nonlinear_arith)
        requires
            n >= 0,
            header_len(n) == 7 + 12 * n,
            blob_size(n) == 7 + 12 * n + 4096 * n,
    ;
    assert(index_wf(b));
    lemma_blob_map_take(s, n);
    assert(s.take(n) =~= s);
}

/// Decoding the first `c` entries of a canonical blob rebuilds the
/// association map of the first `c` entries.
proof fn lemma_blob_map_take(s: Seq<(u32, Tile)>, c: int)
    requires
        keys_sorted(s),
        entries_wf(s),
        0 <= c <= s.len(),
    ensures
        blob_map_upto(ser_bytes(s), c) == assoc_map(s.take(c)),
    decreases c,
{
    crate::journey_bitmap::lemma_sorted_len_bound(s);
    if c > 0 {
        lemma_blob_map_take(s, c - 1);
        lemma_ser_entry(s, c - 1);
        lemma_ser_payload(s, c - 1);
        assert(s.take(c).drop_last() =~= s.take(c - 1));
        assert(s.take(c).last() == s[c - 1]);
        assert(blob_map_upto(ser_bytes(s), c) == blob_map_upto(ser_bytes(s), c - 1).insert(
            entry_key(ser_bytes(s), c - 1),
            decode_payload(
                ser_bytes(s).subrange(
                    entry_off(ser_bytes(s), c - 1),
                    entry_off(ser_bytes(s), c - 1) + TILE_BITS,
                ),
            ),
        ));
    }
}



/// Append the two little-endian bytes of a 16-bit value.
fn push_u16(out: &mut Vec<u8>, v: u16)
    ensures
        final(out)@ == old(out)@ + seq![u32_byte(v as int, 0), u32_byte(v as int, 1)],
{
    out.push((v % 0x100) as u8);
    out.push(((v / 0x100) % 0x100) as u8);
    proof {
        assert(final(out)@ =~= old(out)@ + seq![u32_byte(v as int, 0), u32_byte(v as int, 1)]);
    }
}

/// Append the four little-endian bytes of a 32-bit value.
fn push_u32(out: &mut Vec<u8>, v: u32)
    ensures
        final(out)@ == old(out)@ + seq![
            u32_byte(v as int, 0),
            u32_byte(v as int, 1),
            u32_byte(v as int, 2),
            u32_byte(v as int, 3),
        ],
{
    out.push((v % 0x100) as u8);
    out.push(((v / 0x100) % 0x100) as u8);
    out.push(((v / 0x10000) % 0x100) as u8);
    out.push(((v / 0x1000000) % 0x100) as u8);
    proof {
        assert(final(out)@ =~= old(out)@ + seq![
            u32_byte(v as int, 0),
            u32_byte(v as int, 1),
            u32_byte(v as int, 2),
            u32_byte(v as int, 3),
        ]);
    }
}

/// Serialize a bitmap into its canonical blob: magic, version, tile count,
/// key-sorted directory, then one payload per tile.
pub fn serialize_journey_bitmap(bitmap: &JourneyBitmap) -> (out: Vec<u8>)
    requires
        bitmap.wf(),
    ensures
        out@ == ser_bytes(bitmap.entries()),
        index_wf(out@),
        payloads_wf(out@),
        blob_count(out@) == bitmap.entries().len(),
        blob_map(out@) == bitmap@,
{
    proof {
        bitmap.lemma_entries();
        lemma_serialize_facts(bitmap.entries());
    }
    let ghost s = bitmap.entries();
    let ghost gn = s.len() as int;
    let n = bitmap.entry_count();
    let count = n as u32;
    let header: u32 = HEADER_BASE + ENTRY_BYTES * count;
    proof {
        assert(header == header_len(gn) && header_len(gn) + 4096 * gn < 0x8000_0000)
            by (nonlinear_arith)
            requires
                header == 7 + 12 * count,
                count == gn,
                0 <= gn <= MAX_TILE_KEY,
        ;
    }
    let mut out: Vec<u8> = Vec::new();
    out.push(MAGIC0);
    out.push(MAGIC1);
    out.push(FORMAT_VERSION);
    push_u32(&mut out, count);
    proof {
        assert(out@ =~= ser_bytes(s).take(7));
    }
    let mut i: usize = 0;
    while i < n
        invariant
            bitmap.wf(),
            s == bitmap.entries(),
            gn == s.len() as int,
            keys_sorted(s),
            entries_wf(s),
            n == s.len(),
            n <= MAX_TILE_KEY,
            count == n,
            header == header_len(gn),
            header_len(gn) + 4096 * gn < 0x8000_0000,
            i <= n,
            out@.len() == 7 + 12 * i,
            out@ == ser_bytes(s).take(7 + 12 * i as int),
        decreases n - i,
    {
        let entry = bitmap.entry_at(i);
        let key = entry.0;
        proof {
            assert(key < MAX_TILE_KEY);
        }
        let x = (key / MAP_WIDTH) as u16;
        let y = (key % MAP_WIDTH) as u16;
        proof {
            assert(4096 * (i as int) <= 4096 * gn) by (nonlinear_arith)
                requires
                    0 <= i < gn,
            ;
        }
        let off: u32 = header + 4096 * (i as u32);
        push_u16(&mut out, x);
        push_u16(&mut out, y);
        push_u32(&mut out, off);
        push_u32(&mut out, TILE_BITS);
        proof {
            lemma_ser_entry_bytes(s, i as int);
            assert(out@ =~= ser_bytes(s).take(7 + 12 * (i + 1) as int));
        }
        i += 1;
    }
    let ghost h = header_len(gn);
    let mut t: usize = 0;
    while t < n
        invariant
            bitmap.wf(),
            s == bitmap.entries(),
            gn == s.len() as int,
            keys_sorted(s),
            entries_wf(s),
            n == s.len(),
            n <= MAX_TILE_KEY,
            h == header_len(gn),
            header_len(gn) + 4096 * gn < 0x8000_0000,
            t <= n,
            out@.len() == h + 4096 * t,
            out@ == ser_bytes(s).take(h + 4096 * t as int),
        decreases n - t,
    {
        let tile = bitmap.entry_at(t).1;
        proof {
            assert(tile.wf());
            assert(4096 * (t as int) + 4096 <= 4096 * gn) by (nonlinear_arith)
                requires
                    0 <= t < gn,
            ;
        }
        let mut j: usize = 0;
        while j < TILE_BITS as usize
            invariant
                bitmap.wf(),
                s == bitmap.entries(),
                gn == s.len() as int,
                tile.wf(),
                *tile == s[t as int].1,
                0 <= t < gn,
                n == s.len(),
                h == header_len(gn),
                header_len(gn) + 4096 * gn < 0x8000_0000,
                j <= TILE_BITS,
                out@.len() == h + 4096 * t + j,
                out@ == ser_bytes(s).take(h + 4096 * t + j as int),
            decreases TILE_BITS - j,
        {
            let bit = tile.bit_at(j);
            out.push(
                if bit {
                    1u8
                } else {
                    0u8
                },
            );
            proof {
                vstd::arithmetic::div_mod::lemma_fundamental_div_mod_converse(
                    4096 * (t as int) + j,
                    4096,
                    t as int,
                    j as int,
                );
                assert(ser_byte(s, h + 4096 * t + j as int) == (if s[t as int].1@[j as int] {
                    1u8
                } else {
                    0u8
                }));
                assert(out@ =~= ser_bytes(s).take(h + 4096 * t + (j + 1) as int));
            }
            j += 1;
        }
        t += 1;
        proof {
            assert(out@.len() == h + 4096 * t);
        }
    }
    proof {
        assert(blob_size(gn) == h + 4096 * gn);
        assert(out@ =~= ser_bytes(s));
    }
    out
}

/// The twelve header bytes a directory entry serializes to.
proof fn lemma_ser_entry_bytes(s: Seq<(u32, Tile)>, i: int)
    requires
        entries_wf(s),
        s.len() <= MAX_TILE_KEY,
        0 <= i < s.len(),
    ensures
        ser_byte(s, 7 + 12 * i + 0) == u32_byte((s[i].0 / MAP_WIDTH) as int, 0),
        ser_byte(s, 7 + 12 * i + 1) == u32_byte((s[i].0 / MAP_WIDTH) as int, 1),
        ser_byte(s, 7 + 12 * i + 2) == u32_byte((s[i].0 % MAP_WIDTH) as int, 0),
        ser_byte(s, 7 + 12 * i + 3) == u32_byte((s[i].0 % MAP_WIDTH) as int, 1),
        ser_byte(s, 7 + 12 * i + 4) == u32_byte(canon_off(s.len() as int, i), 0),
        ser_byte(s, 7 + 12 * i + 5) == u32_byte(canon_off(s.len() as int, i), 1),
        ser_byte(s, 7 + 12 * i + 6) == u32_byte(canon_off(s.len() as int, i), 2),
        ser_byte(s, 7 + 12 * i + 7) == u32_byte(canon_off(s.len() as int, i), 3),
        ser_byte(s, 7 + 12 * i + 8) == u32_byte(TILE_BITS as int, 0),
        ser_byte(s, 7 + 12 * i + 9) == u32_byte(TILE_BITS as int, 1),
        ser_byte(s, 7 + 12 * i + 10) == u32_byte(TILE_BITS as int, 2),
        ser_byte(s, 7 + 12 * i + 11) == u32_byte(TILE_BITS as int, 3),
{
    let n = s.len() as int;
    assert(12 * i + 11 < 12 * n) by (nonlinear_arith)
        requires
            0 <= i < n,
    ;
    vstd::arithmetic::div_mod::lemma_fundamental_div_mod_converse(12 * i + 0, 12, i, 0);
    vstd::arithmetic::div_mod::lemma_fundamental_div_mod_converse(12 * i + 1, 12, i, 1);
    vstd::arithmetic::div_mod::lemma_fundamental_div_mod_converse(12 * i + 2, 12, i, 2);
    vstd::arithmetic::div_mod::lemma_fundamental_div_mod_converse(12 * i + 3, 12, i, 3);
    vstd::arithmetic::div_mod::lemma_fundamental_div_mod_converse(12 * i + 4, 12, i, 4);
    vstd::arithmetic::div_mod::lemma_fundamental_div_mod_converse(12 * i + 5, 12, i, 5);
    vstd::arithmetic::div_mod::lemma_fundamental_div_mod_converse(12 * i + 6, 12, i, 6);
    vstd::arithmetic::div_mod::lemma_fundamental_div_mod_converse(12 * i + 7, 12, i, 7);
    vstd::arithmetic::div_mod::lemma_fundamental_div_mod_converse(12 * i + 8, 12, i, 8);
    vstd::arithmetic::div_mod::lemma_fundamental_div_mod_converse(12 * i + 9, 12, i, 9);
    vstd::arithmetic::div_mod::lemma_fundamental_div_mod_converse(12 * i + 10, 12, i, 10);
    vstd::arithmetic::div_mod::lemma_fundamental_div_mod_converse(12 * i + 11, 12, i, 11);
}



/// In a well-formed directory, entry keys grow with the entry position.
pub proof fn lemma_entry_keys_increase(b: Seq<u8>, j: int, i: int)
    requires
        index_wf(b),
        0 <= j < i < blob_count(b),
    ensures
        entry_key(b, j) < entry_key(b, i),
    decreases i - j,
{
    assert(entry_wf(b, i));
    if j < i - 1 {
        lemma_entry_keys_increase(b, j, i - 1);
    }
}

/// Every key of a partially decoded blob map names an already decoded entry.
proof fn lemma_blob_dom(b: Seq<u8>, c: int)
    ensures
        forall|k: int|
            #[trigger] blob_map_upto(b, c).contains_key(k) ==> exists|j: int|
                0 <= j < c && entry_key(b, j) == k,
    decreases c,
{
    if c > 0 {
        lemma_blob_dom(b, c - 1);
        assert forall|k: int| #[trigger] blob_map_upto(b, c).contains_key(k) implies exists|j: int|
            0 <= j < c && entry_key(b, j) == k by {
            if k == entry_key(b, c - 1) {
                assert(0 <= c - 1 < c && entry_key(b, c - 1) == k);
            } else {
                assert(blob_map_upto(b, c - 1).contains_key(k));
                let j = choose|j: int| 0 <= j < c - 1 && entry_key(b, j) == k;
                assert(0 <= j < c && entry_key(b, j) == k);
            }
        }
    }
}

/// Decode one tile payload: one byte per presence bit, nonzero meaning set.
/// The grid position only labels the error.
pub fn deserialize_tile(payload: &[u8], x: u16, y: u16) -> (r: Result<Tile, CodecError>)
    ensures
        match r {
            Ok(t) => payload@.len() == TILE_BITS && t.wf() && t@ == decode_payload(payload@),
            Err(e) => payload@.len() != TILE_BITS && e == CodecError::TileDecompressionFailed(
                x,
                y,
            ),
        },
{
    if payload.len() != TILE_BITS as usize {
        return Err(CodecError::TileDecompressionFailed(x, y));
    }
    let mut bits: Vec<bool> = Vec::new();
    let mut j: usize = 0;
    while j < TILE_BITS as usize
        invariant
            payload@.len() == TILE_BITS,
            j <= TILE_BITS,
            bits@ == decode_payload(payload@).take(j as int),
        decreases TILE_BITS - j,
    {
        bits.push(payload[j] != 0);
        proof {
            assert(bits@ =~= decode_payload(payload@).take(j + 1));
        }
        j += 1;
    }
    proof {
        assert(decode_payload(payload@).take(TILE_BITS as int) =~= decode_payload(payload@));
    }
    Ok(Tile::from_bits(bits))
}

/// Rebuild a whole bitmap from a blob, decoding every tile payload.
pub fn deserialize_journey_bitmap(bytes: &[u8]) -> (r: Result<JourneyBitmap, CodecError>)
    ensures
        match r {
            Ok(bm) => index_wf(bytes@) && payloads_wf(bytes@) && bm.wf() && bm@ == blob_map(
                bytes@,
            ),
            Err(CodecError::UnsupportedVersion) => magic_ok(bytes@) && bytes@[2] != FORMAT_VERSION,
            Err(CodecError::MalformedBlob) => !index_wf(bytes@) && !(magic_ok(bytes@) && bytes@[2]
                != FORMAT_VERSION),
            Err(CodecError::TileDecompressionFailed(x, y)) => index_wf(bytes@) && exists|i: int|
                0 <= i < blob_count(bytes@) && #[trigger] entry_len(bytes@, i) != TILE_BITS && x
                    * MAP_WIDTH + y == entry_key(bytes@, i),
        },
{
    let idx = match parse_tile_index(bytes) {
        Ok(idx) => idx,
        Err(e) => {
            return Err(e);
        },
    };
    let mut bm = JourneyBitmap::new();
    let n = idx.num_entries();
    let blen = bytes.len();
    let mut i: usize = 0;
    while i < n
        invariant
            blen == bytes@.len(),
            index_wf(bytes@),
            idx.wf(),
            idx@ == index_seq(bytes@),
            n == idx@.len(),
            n == blob_count(bytes@),
            i <= n,
            bm.wf(),
            bm@ == blob_map_upto(bytes@, i as int),
            forall|j: int| 0 <= j < i ==> entry_len(bytes@, j) == TILE_BITS,
        decreases n - i,
    {
        let e = idx.entry(i);
        proof {
            assert(idx@[i as int] == (entry_key(bytes@, i as int), entry_off(bytes@, i as int),
            entry_len(bytes@, i as int)));
        }
        if e.2.length != TILE_BITS as usize {
            proof {
                assert(entry_len(bytes@, i as int) != TILE_BITS);
            }
            return Err(CodecError::TileDecompressionFailed(e.0, e.1));
        }
        proof {
            assert(entry_wf(bytes@, i as int));
            assert(e.2.offset + e.2.length <= blen);
        }
        let payload = vstd::slice::slice_subrange(bytes, e.2.offset, e.2.offset + e.2.length);
        let tile = match deserialize_tile(payload, e.0, e.1) {
            Ok(t) => t,
            Err(err) => {
                proof {
                    assert(payload@.len() == TILE_BITS);
                }
                return Err(err);
            },
        };
        let key: u32 = (e.0 as u32) * MAP_WIDTH + (e.1 as u32);
        proof {
            assert(key == entry_key(bytes@, i as int));
            assert(key < MAX_TILE_KEY);
            lemma_blob_dom(bytes@, i as int);
            if bm@.contains_key(key as int) {
                let j = choose|j: int| 0 <= j < i && entry_key(bytes@, j) == key;
                lemma_entry_keys_increase(bytes@, j, i as int);
                assert(false);
            }
        }
        bm.insert_fresh(key, tile);
        i += 1;
    }
    proof {
        assert(i as int == blob_count(bytes@));
    }
    Ok(bm)
}


} // verus!
