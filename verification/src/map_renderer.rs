use crate::journey_bitmap::JourneyBitmap;
use crate::journey_bitmap::Tile;
use crate::journey_bitmap::MAP_WIDTH;
use crate::journey_bitmap::MAX_TILE_KEY;
use crate::journey_bitmap::TILE_BITS;
use crate::journey_bitmap::count_true;
use crate::journey_bitmap::entries_area;
use crate::journey_data::blob_count;
use crate::journey_data::blob_map;
use crate::journey_data::decodable_map;
use crate::journey_data::decodable_map_upto;
use crate::journey_data::decode_payload;
use crate::journey_data::entry_key;
use crate::journey_data::entry_len;
use crate::journey_data::entry_off;
use crate::journey_data::entry_wf;
use crate::journey_data::index_seq;
use crate::journey_data::index_wf;
use crate::journey_data::magic_ok;
use crate::journey_data::parse_tile_index;
use crate::journey_data::payloads_wf;
use crate::journey_data::deserialize_tile;
use crate::journey_data::CodecError;
use crate::journey_data::TileIndex;
use crate::journey_data::FORMAT_VERSION;
use vstd::prelude::*;
use vstd::arithmetic::power2::pow2;
use vstd::string::StrSliceExecFns;
use vstd::string::StringSliceAdditionalSpecFns;
use vstd::string::StringExecFns;

verus! {

/// For a well-formed directory, the decodable map holds each complete
/// entry's payload under that entry's key.
proof fn lemma_decodable_upto_get(b: Seq<u8>, i: int, c: int)
    requires
        index_wf(b),
        0 <= i < c <= blob_count(b),
        entry_len(b, i) == TILE_BITS,
    ensures
        decodable_map_upto(b, c).contains_key(entry_key(b, i)),
        decodable_map_upto(b, c)[entry_key(b, i)] == decode_payload(
            b.subrange(entry_off(b, i), entry_off(b, i) + TILE_BITS),
        ),
    decreases c,
{
    if i < c - 1 {
        lemma_decodable_upto_get(b, i, c - 1);
        crate::journey_data::lemma_entry_keys_increase(b, i, c - 1);
    }
}

/// Every key of the decodable map names a complete directory entry.
proof fn lemma_decodable_dom(b: Seq<u8>, c: int)
    ensures
        forall|k: int|
            #[trigger] decodable_map_upto(b, c).contains_key(k) ==> exists|j: int|
                0 <= j < c && entry_key(b, j) == k && entry_len(b, j) == TILE_BITS,
    decreases c,
{
    if c > 0 {
        lemma_decodable_dom(b, c - 1);
        assert forall|k: int| #[trigger] decodable_map_upto(b, c).contains_key(k) implies exists|
            j: int,
        | 0 <= j < c && entry_key(b, j) == k && entry_len(b, j) == TILE_BITS by {
            if entry_len(b, c - 1) == TILE_BITS && k == entry_key(b, c - 1) {
                assert(0 <= c - 1 < c && entry_key(b, c - 1) == k && entry_len(b, c - 1)
                    == TILE_BITS);
            } else {
                assert(decodable_map_upto(b, c - 1).contains_key(k));
                let j = choose|j: int|
                    0 <= j < c - 1 && entry_key(b, j) == k && entry_len(b, j) == TILE_BITS;
                assert(0 <= j < c && entry_key(b, j) == k && entry_len(b, j) == TILE_BITS);
            }
        }
    }
}

/// A serialized bitmap blob together with its parsed tile directory.
/// Tiles stay compressed in the blob until a caller asks for one.
pub struct LazyTileSource {
    raw_data: Vec<u8>,
    tile_index: TileIndex,
}

impl LazyTileSource {
    /// The bitmap this source describes: every tile whose directory entry
    /// names a complete payload, decoded.
    pub closed spec fn view(&self) -> Map<int, Seq<bool>> {
        decodable_map(self.raw_data@)
    }

    pub closed spec fn wf(&self) -> bool {
        &&& index_wf(self.raw_data@)
        &&& self.tile_index.wf()
        &&& self.tile_index@ == index_seq(self.raw_data@)
    }

    /// Build from a serialized bitmap blob. Only the tile directory is
    /// parsed; no tile payload is read, and construction succeeds exactly
    /// when the directory parses. A corrupt payload surfaces later, as
    /// `None` from `decompress_tile`.
    pub fn from_serialized_bitmap(raw_data: Vec<u8>) -> (r: Result<LazyTileSource, CodecError>)
        ensures
            match r {
                Ok(src) => index_wf(raw_data@) && src.wf() && src@ == decodable_map(raw_data@)
                    && (payloads_wf(raw_data@) ==> src@ == blob_map(raw_data@)),
                Err(CodecError::UnsupportedVersion) => magic_ok(raw_data@) && raw_data@[2]
                    != FORMAT_VERSION,
                Err(CodecError::MalformedBlob) => !index_wf(raw_data@) && !(magic_ok(raw_data@)
                    && raw_data@[2] != FORMAT_VERSION),
                Err(CodecError::TileDecompressionFailed(_, _)) => false,
            },
    {
        let tile_index = match parse_tile_index(raw_data.as_slice()) {
            Ok(idx) => idx,
            Err(e) => {
                return Err(e);
            },
        };
        proof {
            if payloads_wf(raw_data@) {
                crate::journey_data::lemma_decodable_is_blob_map(
                    raw_data@,
                    blob_count(raw_data@),
                );
            }
        }
        Ok(LazyTileSource { raw_data, tile_index })
    }

    /// Decode the single tile at grid position `(x, y)`, if this source holds
    /// it with a complete payload. Reads only that tile's payload, never the
    /// whole blob, and mutates nothing.
    pub fn decompress_tile(&self, x: u16, y: u16) -> (r: Option<Tile>)
        requires
            self.wf(),
            x < MAP_WIDTH,
            y < MAP_WIDTH,
        ensures
            match r {
                Some(t) => self@.contains_key(x * MAP_WIDTH + y) && t.wf() && t@ == self@[x
                    * MAP_WIDTH + y],
                None => !self@.contains_key(x * MAP_WIDTH + y),
            },
    {
        let loc = match self.tile_index.lookup(x, y) {
            Some(loc) => loc,
            None => {
                proof {
                    lemma_decodable_dom(self.raw_data@, blob_count(self.raw_data@));
                    if self@.contains_key(x * MAP_WIDTH + y) {
                        let j = choose|j: int|
                            0 <= j < blob_count(self.raw_data@) && entry_key(self.raw_data@, j)
                                == x * MAP_WIDTH + y && entry_len(self.raw_data@, j) == TILE_BITS;
                        assert(self.tile_index@[j].0 == x * MAP_WIDTH + y);
                        assert(false);
                    }
                }
                return None;
            },
        };
        let ghost i = choose|i: int|
            0 <= i < self.tile_index@.len() && self.tile_index@[i] == (
                (x * MAP_WIDTH + y) as int,
                loc.offset as int,
                loc.length as int,
            );
        proof {
            assert(self.tile_index@[i] == (
                entry_key(self.raw_data@, i),
                entry_off(self.raw_data@, i),
                entry_len(self.raw_data@, i),
            ));
            assert(entry_wf(self.raw_data@, i));
        }
        let blen = self.raw_data.len();
        let payload = vstd::slice::slice_subrange(
            self.raw_data.as_slice(),
            loc.offset,
            loc.offset + loc.length,
        );
        match deserialize_tile(payload, x, y) {
            Ok(t) => {
                proof {
                    assert(entry_len(self.raw_data@, i) == TILE_BITS);
                    lemma_decodable_upto_get(self.raw_data@, i, blob_count(self.raw_data@));
                }
                Some(t)
            },
            Err(_) => {
                proof {
                    assert(entry_len(self.raw_data@, i) != TILE_BITS);
                    lemma_decodable_dom(self.raw_data@, blob_count(self.raw_data@));
                    if self@.contains_key(x * MAP_WIDTH + y) {
                        let j = choose|j: int|
                            0 <= j < blob_count(self.raw_data@) && entry_key(self.raw_data@, j)
                                == x * MAP_WIDTH + y && entry_len(self.raw_data@, j) == TILE_BITS;
                        if j != i {
                            if j < i {
                                crate::journey_data::lemma_entry_keys_increase(self.raw_data@, j, i);
                            } else {
                                crate::journey_data::lemma_entry_keys_increase(self.raw_data@, i, j);
                            }
                        }
                        assert(false);
                    }
                }
                None
            },
        }
    }

    /// Every raster this source holds is complete.
    pub proof fn lemma_source_values(&self)
        requires
            self.wf(),
        ensures
            forall|k: int| #[trigger] self@.contains_key(k) ==> self@[k].len() == TILE_BITS,
            forall|k: int| #[trigger] self@.contains_key(k) ==> 0 <= k < MAX_TILE_KEY,
    {
        crate::journey_data::lemma_decodable_values_len(
            self.raw_data@,
            blob_count(self.raw_data@),
        );
        lemma_decodable_dom(self.raw_data@, blob_count(self.raw_data@));
        assert forall|k: int| #[trigger] self@.contains_key(k) implies 0 <= k < MAX_TILE_KEY by {
            let j = choose|j: int|
                0 <= j < blob_count(self.raw_data@) && entry_key(self.raw_data@, j) == k
                    && entry_len(self.raw_data@, j) == TILE_BITS;
            assert(entry_wf(self.raw_data@, j));
        }
    }

    /// The grid positions of the whole tile directory, in directory order,
    /// each listed exactly once.
    pub fn tile_keys(&self) -> (r: Vec<(u16, u16)>)
        requires
            self.wf(),
        ensures
            forall|i: int, j: int| 0 <= i < j < r@.len() ==> r@[i] != r@[j],
            forall|i: int|
                0 <= i < r@.len() ==> (#[trigger] r@[i]).0 < MAP_WIDTH && r@[i].1 < MAP_WIDTH,
            forall|k: int|
                #[trigger] self@.contains_key(k) ==> exists|i: int|
                    0 <= i < r@.len() && (#[trigger] r@[i]).0 * MAP_WIDTH + r@[i].1 == k,
    {
        let n = self.tile_index.num_entries();
        let mut out: Vec<(u16, u16)> = Vec::new();
        let mut i: usize = 0;
        while i < n
            invariant
                self.wf(),
                n == self.tile_index@.len(),
                n == blob_count(self.raw_data@),
                i <= n,
                out@.len() == i,
                forall|j: int|
                    0 <= j < i ==> (#[trigger] out@[j]).0 < MAP_WIDTH && out@[j].1 < MAP_WIDTH
                        && out@[j].0 * MAP_WIDTH + out@[j].1 == self.tile_index@[j].0,
            decreases n - i,
        {
            let e = self.tile_index.entry(i);
            proof {
                assert(self.tile_index@[i as int] == (
                    entry_key(self.raw_data@, i as int),
                    entry_off(self.raw_data@, i as int),
                    entry_len(self.raw_data@, i as int),
                ));
                assert(entry_wf(self.raw_data@, i as int));
            }
            out.push((e.0, e.1));
            i += 1;
        }
        proof {
            assert forall|a: int, c: int| 0 <= a < c < out@.len() implies out@[a] != out@[c] by {
                assert(out@[a].0 * MAP_WIDTH + out@[a].1 == self.tile_index@[a].0);
                assert(out@[c].0 * MAP_WIDTH + out@[c].1 == self.tile_index@[c].0);
                assert(self.tile_index@[a].0 == entry_key(self.raw_data@, a));
                assert(self.tile_index@[c].0 == entry_key(self.raw_data@, c));
                crate::journey_data::lemma_entry_keys_increase(self.raw_data@, a, c);
            }
            lemma_decodable_dom(self.raw_data@, blob_count(self.raw_data@));
            assert forall|k: int| #[trigger] self@.contains_key(k) implies exists|i: int|
                0 <= i < out@.len() && (#[trigger] out@[i]).0 * MAP_WIDTH + out@[i].1 == k by {
                let j = choose|j: int|
                    0 <= j < blob_count(self.raw_data@) && entry_key(self.raw_data@, j) == k
                        && entry_len(self.raw_data@, j) == TILE_BITS;
                assert(out@[j].0 * MAP_WIDTH + out@[j].1 == self.tile_index@[j].0);
                assert(self.tile_index@[j].0 == entry_key(self.raw_data@, j));
            }
        }
        out
    }
}

/// The per-tile transformation applied before a tile is rendered.
/// Currently the identity; kept as an explicit extension point and invoked
/// wherever a tile enters or changes in a renderer.
fn prepare_tiles_for_rendering(tile: &mut Tile)
    requires
        old(tile).wf(),
    ensures
        final(tile).wf(),
        final(tile)@ == old(tile)@,
{
}

/// Apply the rendering preparation hook to every tile of a bitmap.
fn prepare_journey_bitmap_for_rendering(journey_bitmap: &mut JourneyBitmap)
    requires
        old(journey_bitmap).wf(),
    ensures
        final(journey_bitmap).wf(),
        final(journey_bitmap)@ == old(journey_bitmap)@,
{
    let ghost orig = journey_bitmap@;
    let n = journey_bitmap.entry_count();
    let mut i: usize = 0;
    while i < n
        invariant
            journey_bitmap.wf(),
            journey_bitmap@ == orig,
            n == journey_bitmap.entries().len(),
            i <= n,
        decreases n - i,
    {
        proof {
            journey_bitmap.lemma_entries();
        }
        let entry = journey_bitmap.entry_at(i);
        proof {
            assert(crate::journey_bitmap::entries_wf(journey_bitmap.entries()));
            assert(journey_bitmap.entries()[i as int].1.wf());
        }
        let mut tile = entry.1.duplicate();
        prepare_tiles_for_rendering(&mut tile);
        let ghost pre = journey_bitmap@;
        let ghost key = journey_bitmap.entries()[i as int].0;
        proof {
            crate::journey_bitmap::lemma_assoc_get(journey_bitmap.entries(), i as int);
        }
        journey_bitmap.replace_tile_at(i, tile);
        proof {
            assert(journey_bitmap@ =~= pre);
        }
        i += 1;
    }
}

/// Renders a working bitmap, optionally backed by a lazy tile source, and
/// tracks a monotonic version for client cache revalidation.
pub struct MapRenderer {
    journey_bitmap: JourneyBitmap,
    lazy_source: Option<LazyTileSource>,
    loaded_tiles: Vec<u32>,
    tile_area_cache: Vec<(u32, u64)>,
    version: u64,
    current_area: Option<u64>,
}

impl MapRenderer {
    /// The working bitmap's tile map.
    pub closed spec fn bitmap(&self) -> Map<int, Seq<bool>> {
        self.journey_bitmap@
    }

    /// The working bitmap itself.
    pub closed spec fn bitmap_value(&self) -> JourneyBitmap {
        self.journey_bitmap
    }

    /// The tile map of the lazy source, if one is attached.
    pub closed spec fn lazy(&self) -> Option<Map<int, Seq<bool>>> {
        match self.lazy_source {
            Some(src) => Some(src@),
            None => None,
        }
    }

    /// The current version counter.
    pub closed spec fn version(&self) -> u64 {
        self.version
    }

    /// The conceptual bitmap this renderer shows: the working bitmap merged
    /// with everything the lazy source holds. Lazy tile loads never change it.
    pub open spec fn content(&self) -> Map<int, Seq<bool>> {
        match self.lazy() {
            Some(src) => crate::journey_bitmap::merge_bm(self.bitmap(), src),
            None => self.bitmap(),
        }
    }

    /// Every tile already marked loaded has its source bits folded into the
    /// working bitmap. Holds from construction on; a caller-supplied `update`
    /// is the one operation not obliged to preserve it.
    pub open spec fn lazy_consistent(&self) -> bool {
        match self.lazy() {
            Some(src) => forall|k: u32|
                self.loaded(k) && src.contains_key(k as int) ==> self.bitmap().contains_key(
                    k as int,
                ) && subsumed(src[k as int], self.bitmap()[k as int]),
            None => true,
        }
    }

    /// Whether a tile key has been looked up in the lazy source already.
    pub closed spec fn loaded(&self, k: u32) -> bool {
        self.loaded_tiles@.contains(k)
    }

    pub closed spec fn wf(&self) -> bool {
        &&& self.journey_bitmap.wf()
        &&& match self.lazy_source {
            Some(src) => src.wf(),
            None => true,
        }
        &&& forall|i: int|
            0 <= i < self.tile_area_cache@.len() ==> self.bitmap().contains_key(
                (#[trigger] self.tile_area_cache@[i]).0 as int,
            ) && self.tile_area_cache@[i].1 == count_true(
                self.bitmap()[self.tile_area_cache@[i].0 as int],
            )
        &&& match self.current_area {
            Some(a) => a == entries_area(self.journey_bitmap.entries()),
            None => true,
        }
    }

    pub fn new(journey_bitmap: JourneyBitmap) -> (r: MapRenderer)
        requires
            journey_bitmap.wf(),
        ensures
            r.wf(),
            r.bitmap() == journey_bitmap@,
            r.lazy() is None,
            r.version() == 0,
            forall|k: u32| !r.loaded(k),
    {
        let mut journey_bitmap = journey_bitmap;
        prepare_journey_bitmap_for_rendering(&mut journey_bitmap);
        MapRenderer {
            journey_bitmap,
            lazy_source: None,
            loaded_tiles: Vec::new(),
            tile_area_cache: Vec::new(),
            version: 0,
            current_area: None,
        }
    }

    /// Bump the version and forget the memoized area.
    fn reset(&mut self)
        requires
            old(self).wf(),
        ensures
            final(self).wf(),
            final(self).version() == wrapping_inc(old(self).version()),
            final(self).bitmap() == old(self).bitmap(),
            final(self).bitmap_value() == old(self).bitmap_value(),
            final(self).lazy() == old(self).lazy(),
            forall|k: u32| final(self).loaded(k) == old(self).loaded(k),
            final(self).current_area is None,
            final(self).tile_area_cache == old(self).tile_area_cache,
    {
        self.version = self.version.wrapping_add(1);
        self.current_area = None;
    }

    /// Replace the working bitmap, dropping any lazy source and every cache.
    pub fn replace(&mut self, journey_bitmap: JourneyBitmap)
        requires
            old(self).wf(),
            journey_bitmap.wf(),
        ensures
            final(self).wf(),
            final(self).bitmap() == journey_bitmap@,
            final(self).lazy() is None,
            forall|k: u32| !final(self).loaded(k),
            final(self).version() == wrapping_inc(old(self).version()),
    {
        let mut journey_bitmap = journey_bitmap;
        prepare_journey_bitmap_for_rendering(&mut journey_bitmap);
        self.journey_bitmap = journey_bitmap;
        self.lazy_source = None;
        self.loaded_tiles.clear();
        self.tile_area_cache.clear();
        self.current_area = None;
        self.reset();
    }

    /// Adopt a lazy source for finalized journeys and a small working bitmap
    /// holding just the ongoing journey.
    pub fn replace_lazy(&mut self, lazy_source: LazyTileSource, ongoing_bitmap: JourneyBitmap)
        requires
            old(self).wf(),
            lazy_source.wf(),
            ongoing_bitmap.wf(),
        ensures
            final(self).wf(),
            final(self).bitmap() == ongoing_bitmap@,
            final(self).lazy() == Some(lazy_source@),
            forall|k: u32| !final(self).loaded(k),
            final(self).version() == wrapping_inc(old(self).version()),
    {
        let mut ongoing_bitmap = ongoing_bitmap;
        prepare_journey_bitmap_for_rendering(&mut ongoing_bitmap);
        self.journey_bitmap = ongoing_bitmap;
        self.lazy_source = Some(lazy_source);
        self.loaded_tiles.clear();
        self.tile_area_cache.clear();
        self.current_area = None;
        self.reset();
    }

    /// Drop the lazy source and the loaded-tile marks to free memory.
    /// Tiles already merged into the working bitmap stay.
    pub fn drop_lazy_source(&mut self)
        requires
            old(self).wf(),
        ensures
            final(self).wf(),
            final(self).bitmap() == old(self).bitmap(),
            final(self).lazy() is None,
            forall|k: u32| !final(self).loaded(k),
            final(self).version() == old(self).version(),
    {
        self.lazy_source = None;
        self.loaded_tiles.clear();
    }

    pub fn get_current_version(&self) -> (v: u64)
        ensures
            v == self.version(),
    {
        self.version
    }

    /// Read access to the working bitmap; never touches the lazy source.
    pub fn peek_latest_bitmap(&self) -> (r: &JourneyBitmap)
        ensures
            r == self.bitmap_value(),
            r@ == self.bitmap(),
    {
        &self.journey_bitmap
    }

    /// Make sure the tile at `(x, y)` has been pulled from the lazy source.
    /// The mark is set even when the source lacks the tile, so a missing tile
    /// is looked up at most once.
    fn ensure_tile_loaded(&mut self, x: u16, y: u16)
        requires
            old(self).wf(),
            x < MAP_WIDTH,
            y < MAP_WIDTH,
        ensures
            final(self).wf(),
            final(self).version() == old(self).version(),
            final(self).lazy() == old(self).lazy(),
            final(self).loaded((x * MAP_WIDTH + y) as u32),
            forall|k: u32| old(self).loaded(k) ==> final(self).loaded(k),
            forall|k: u32|
                final(self).loaded(k) ==> old(self).loaded(k) || k == (x * MAP_WIDTH + y) as u32,
            final(self).content() == old(self).content(),
            old(self).lazy_consistent() ==> final(self).lazy_consistent(),
            final(self).bitmap() == spec_load_tile(
                old(self).bitmap(),
                old(self).lazy(),
                if old(self).loaded((x * MAP_WIDTH + y) as u32) {
                    None
                } else {
                    Some((x * MAP_WIDTH + y) as int)
                },
            ),
    {
        let key: u32 = (x as u32) * MAP_WIDTH + (y as u32);
        if self.contains_loaded(key) {
            return ;
        }
        self.loaded_tiles.push(key);
        proof {
            let n = self.loaded_tiles@.len() as int;
            assert(self.loaded_tiles@[n - 1] == key);
            assert(self.loaded_tiles@.contains(key));
            assert forall|k: u32| old(self).loaded(k) implies self.loaded(k) by {
                let i = choose|i: int|
                    0 <= i < old(self).loaded_tiles@.len() && old(self).loaded_tiles@[i] == k;
                assert(self.loaded_tiles@[i] == k);
            }
            assert forall|k: u32| self.loaded(k) implies k == key || old(self).loaded(k) by {
                let i = choose|i: int|
                    0 <= i < self.loaded_tiles@.len() && self.loaded_tiles@[i] == k;
                if i < self.loaded_tiles@.len() - 1 {
                    assert(old(self).loaded_tiles@[i] == k);
                }
            }
        }
        let has_source = self.lazy_source.is_some();
        if has_source {
            let tile = match &self.lazy_source {
                Some(src) => src.decompress_tile(x, y),
                None => None,
            };
            match tile {
                Some(mut finalized_tile) => {
                    prepare_tiles_for_rendering(&mut finalized_tile);
                    self.journey_bitmap.insert_or_merge(key, finalized_tile);
                    self.remove_area_cache(key);
                    self.current_area = None;
                    proof {
                        let src = old(self).lazy()->Some_0;
                        assert(src[key as int].len() == TILE_BITS);
                        lemma_merge_entry_absorb(old(self).bitmap(), src, key as int);
                        assert(final(self).content() == old(self).content());
                        if old(self).lazy_consistent() {
                            assert forall|k: u32|
                                final(self).loaded(k) && src.contains_key(k as int)
                                implies final(self).bitmap().contains_key(k as int) && subsumed(
                                src[k as int],
                                final(self).bitmap()[k as int],
                            ) by {
                                if k == key {
                                    assert(subsumed(
                                        src[k as int],
                                        final(self).bitmap()[k as int],
                                    ));
                                } else {
                                    assert(old(self).loaded(k));
                                    assert(final(self).bitmap()[k as int] == old(
                                        self,
                                    ).bitmap()[k as int]);
                                }
                            }
                        }
                    }
                },
                None => {
                    proof {
                        lemma_consistent_extend(*old(self), *self, key);
                    }
                },
            }
        } else {
            proof {
                lemma_consistent_extend(*old(self), *self, key);
            }
        }
    }

    /// The version as lowercase hex without leading zeros.
    pub fn get_version_string(&self) -> (r: String)
        ensures
            r@ == hex_seq(self.version() as int),
    {
        hex_string(self.version)
    }

    /// Tolerant version parse: strip surrounding quote characters, then read
    /// base-16. Anything unreadable yields `None`.
    pub fn parse_version_string(version_str: &str) -> (r: Option<u64>)
        ensures
            r == spec_parse_version(version_str.spec_bytes()),
    {
        let b = version_str.as_bytes();
        let n = b.len();
        let ghost bs = version_str.spec_bytes();
        let mut lo: usize = 0;
        while lo < n && b[lo] == '"' as u8
            invariant
                bs == b@,
                n == b@.len(),
                lo <= n,
                skip_quotes(bs, 0) == skip_quotes(bs, lo as int),
            decreases n - lo,
        {
            lo += 1;
        }
        proof {
            assert(skip_quotes(bs, lo as int) == lo);
        }
        let mut hi: usize = n;
        while hi > lo && b[hi - 1] == '"' as u8
            invariant
                bs == b@,
                n == b@.len(),
                lo <= hi <= n,
                skip_quotes_back(bs, n as int, lo as int) == skip_quotes_back(
                    bs,
                    hi as int,
                    lo as int,
                ),
            decreases hi,
        {
            hi -= 1;
        }
        proof {
            assert(skip_quotes_back(bs, hi as int, lo as int) == hi);
        }
        let mut start = lo;
        if start < hi && b[start] == '+' as u8 {
            start += 1;
        }
        if start >= hi {
            return None;
        }
        let mut acc: u64 = 0;
        let mut i = start;
        while i < hi
            invariant
                bs == b@,
                bs == version_str.spec_bytes(),
                n == b@.len(),
                lo <= start <= i <= hi <= n,
                start < hi,
                skip_quotes(bs, 0) == lo,
                skip_quotes_back(bs, n as int, lo as int) == hi,
                start == if lo < hi && bs[lo as int] == '+' as u8 {
                    lo + 1
                } else {
                    lo as int
                },
                forall|j: int| start <= j < i ==> hex_digit_val(bs[j]) < 16,
                acc == hex_prefix_val(bs, start as int, i as int),
            decreases hi - i,
        {
            let d = hex_val_exec(b[i]);
            if d >= 16 {
                proof {
                    let lo0 = skip_quotes(bs, 0);
                    let hi0 = skip_quotes_back(bs, bs.len() as int, lo0);
                    assert(lo0 == lo && hi0 == hi);
                    let st = if lo0 < hi0 && bs[lo0] == '+' as u8 {
                        lo0 + 1
                    } else {
                        lo0
                    };
                    assert(st == start);
                    assert(hex_digit_val(bs[i as int]) >= 16);
                    assert(!(forall|j: int| st <= j < hi0 ==> hex_digit_val(bs[j]) < 16));
                }
                return None;
            }
            let next: u128 = (acc as u128) * 16 + (d as u128);
            proof {
                assert(next == hex_prefix_val(bs, start as int, i + 1));
            }
            if next > 0xFFFF_FFFF_FFFF_FFFFu128 {
                proof {
                    let lo0 = skip_quotes(bs, 0);
                    let hi0 = skip_quotes_back(bs, bs.len() as int, lo0);
                    assert(lo0 == lo && hi0 == hi);
                    let st = if lo0 < hi0 && bs[lo0] == '+' as u8 {
                        lo0 + 1
                    } else {
                        lo0
                    };
                    assert(st == start);
                    lemma_hex_prefix_monotone(bs, start as int, i + 1, hi as int);
                    assert(hex_prefix_val(bs, st, hi0) >= next);
                }
                return None;
            }
            acc = next as u64;
            i += 1;
        }
        Some(acc)
    }

    /// `None` when the client's version string parses to the current version;
    /// otherwise the current version string to send back.
    pub fn has_changed_since(&self, client_version: Option<&str>) -> (r: Option<String>)
        ensures
            match r {
                None => client_version is Some && spec_parse_version(
                    client_version->Some_0.spec_bytes(),
                ) == Some(self.version()),
                Some(s) => s@ == hex_seq(self.version() as int) && !(client_version is Some
                    && spec_parse_version(client_version->Some_0.spec_bytes()) == Some(
                    self.version(),
                )),
            },
    {
        match client_version {
            Some(v_str) => {
                let parsed = Self::parse_version_string(v_str);
                match parsed {
                    Some(v) if v == self.version => None,
                    _ => Some(self.get_version_string()),
                }
            },
            None => Some(self.get_version_string()),
        }
    }

    /// The bitmap together with the fresh version string, unless the client's
    /// version is already current.
    pub fn get_latest_bitmap_if_changed(&self, client_version: Option<&str>) -> (r: Option<
        (&JourneyBitmap, String),
    >)
        ensures
            match r {
                None => client_version is Some && spec_parse_version(
                    client_version->Some_0.spec_bytes(),
                ) == Some(self.version()),
                Some(p) => p.0 == self.bitmap_value() && p.1@ == hex_seq(self.version() as int)
                    && !(client_version is Some && spec_parse_version(
                    client_version->Some_0.spec_bytes(),
                ) == Some(self.version())),
            },
    {
        match client_version {
            Some(v_str) => {
                let parsed = Self::parse_version_string(v_str);
                match parsed {
                    Some(v) if v == self.version => None,
                    _ => Some((&self.journey_bitmap, self.get_version_string())),
                }
            },
            None => Some((&self.journey_bitmap, self.get_version_string())),
        }
    }

    /// Run a caller-supplied mutation over the working bitmap. The mutation
    /// returns the new bitmap and the tile keys it changed; each changed tile
    /// is re-prepared for rendering, its cached area dropped, and the version
    /// bumped.
    pub fn update<F: FnOnce(JourneyBitmap) -> (JourneyBitmap, Vec<u32>)>(&mut self, f: F)
        requires
            old(self).wf(),
            call_requires(f, (old(self).bitmap_value(),)),
            forall|b: JourneyBitmap, ret: (JourneyBitmap, Vec<u32>)|
                #[trigger] call_ensures(f, (b,), ret) ==> ret.0.wf(),
        ensures
            final(self).wf(),
            final(self).version() == wrapping_inc(old(self).version()),
            final(self).lazy() == old(self).lazy(),
            exists|ret: (JourneyBitmap, Vec<u32>)|
                #[trigger] call_ensures(f, (old(self).bitmap_value(),), ret)
                    && final(self).bitmap() == ret.0@,
    {
        let mut taken = JourneyBitmap::new();
        core::mem::swap(&mut taken, &mut self.journey_bitmap);
        let (out, changed) = f(taken);
        let ghost result = out;
        self.journey_bitmap = out;
        let ghost snap = *self;
        let m = changed.len();
        let mut i: usize = 0;
        while i < m
            invariant
                self.journey_bitmap.wf(),
                self.journey_bitmap@ == result@,
                self.lazy_source == snap.lazy_source,
                self.version == snap.version,
                self.loaded_tiles == snap.loaded_tiles,
                self.tile_area_cache == snap.tile_area_cache,
                self.current_area == snap.current_area,
                m == changed@.len(),
                i <= m,
            decreases m - i,
        {
            let key = changed[i];
            match self.journey_bitmap.find_entry(key) {
                Some(pos) => {
                    proof {
                        self.journey_bitmap.lemma_entries();
                        crate::journey_bitmap::lemma_assoc_get(
                            self.journey_bitmap.entries(),
                            pos as int,
                        );
                    }
                    let mut tile = self.journey_bitmap.entry_at(pos).1.duplicate();
                    prepare_tiles_for_rendering(&mut tile);
                    let ghost pre = self.journey_bitmap@;
                    self.journey_bitmap.replace_tile_at(pos, tile);
                    proof {
                        assert(self.journey_bitmap@ =~= pre);
                    }
                },
                None => {},
            }
            i += 1;
        }
        self.tile_area_cache.clear();
        self.current_area = None;
        self.reset();
    }

    /// The footprint area: the number of set pixels over all tiles, computed
    /// after every lazy tile is loaded, and memoized.
    pub fn get_current_area(&mut self) -> (r: u64)
        requires
            old(self).wf(),
        ensures
            final(self).wf(),
            r == entries_area(final(self).bitmap_value().entries()),
            final(self).version() == old(self).version(),
            final(self).lazy() == old(self).lazy(),
            final(self).content() == old(self).content(),
            old(self).lazy_consistent() ==> final(self).lazy_consistent() && final(self).bitmap()
                == old(self).content(),
    {
        self.ensure_all_tiles_loaded();
        let cached = self.current_area;
        match cached {
            Some(a) => a,
            None => {
                let a = self.compute_area();
                self.current_area = Some(a);
                a
            },
        }
    }

    /// Sum set pixels over every tile, using and refreshing the per-tile cache.
    fn compute_area(&mut self) -> (r: u64)
        requires
            old(self).wf(),
        ensures
            final(self).wf(),
            r == entries_area(final(self).bitmap_value().entries()),
            final(self).journey_bitmap == old(self).journey_bitmap,
            final(self).lazy_source == old(self).lazy_source,
            final(self).loaded_tiles == old(self).loaded_tiles,
            final(self).version == old(self).version,
            final(self).current_area == old(self).current_area,
    {
        let n = self.journey_bitmap.entry_count();
        let ghost es = self.journey_bitmap.entries();
        let mut acc: u64 = 0;
        let mut i: usize = 0;
        while i < n
            invariant
                self.wf(),
                self.journey_bitmap == old(self).journey_bitmap,
                self.lazy_source == old(self).lazy_source,
                self.loaded_tiles == old(self).loaded_tiles,
                self.version == old(self).version,
                self.current_area == old(self).current_area,
                es == self.journey_bitmap.entries(),
                n == es.len(),
                i <= n,
                acc == entries_area(es.take(i as int)),
                acc <= 4096 * i,
            decreases n - i,
        {
            proof {
                self.journey_bitmap.lemma_entries();
                crate::journey_bitmap::lemma_assoc_get(es, i as int);
            }
            let entry = self.journey_bitmap.entry_at(i);
            let key = entry.0;
            let cnt = match self.lookup_area_cache(key) {
                Some(a) => a,
                None => {
                    let c = entry.1.count_pixels();
                    proof {
                        crate::journey_bitmap::lemma_count_true_bound(es[i as int].1@);
                    }
                    self.tile_area_cache.push((key, c));
                    c
                },
            };
            proof {
                assert(cnt == count_true(es[i as int].1@)) by {
                    crate::journey_bitmap::lemma_count_true_bound(es[i as int].1@);
                }
                assert(es.take(i + 1).drop_last() =~= es.take(i as int));
                assert(es.take(i + 1).last() == es[i as int]);
                crate::journey_bitmap::lemma_count_true_bound(es[i as int].1@);
            }
            acc = acc + cnt;
            i += 1;
        }
        proof {
            assert(es.take(n as int) =~= es);
        }
        acc
    }

    /// The cached set-pixel count of one tile, if present.
    fn lookup_area_cache(&self, key: u32) -> (r: Option<u64>)
        requires
            self.wf(),
        ensures
            match r {
                Some(a) => self.bitmap().contains_key(key as int) && a == count_true(
                    self.bitmap()[key as int],
                ),
                None => true,
            },
    {
        let n = self.tile_area_cache.len();
        let mut i: usize = 0;
        while i < n
            invariant
                self.wf(),
                n == self.tile_area_cache@.len(),
                i <= n,
            decreases n - i,
        {
            let e = self.tile_area_cache[i];
            if e.0 == key {
                return Some(e.1);
            }
            i += 1;
        }
        None
    }

    /// Sample one buffer pixel of a view tile against the renderer's content.
    /// Tiles named by `needed` are already merged into the working bitmap and
    /// are read from it; any other tile is read from the lazy source directly,
    /// bit by bit, without touching the renderer.
    fn sample_bit(
        &self,
        needed: &Vec<(u16, u16)>,
        tx: u64,
        vy: u64,
        z: u16,
        bsp: u16,
        px: u64,
        py: u64,
    ) -> (lit: bool)
        requires
            self.wf(),
            z <= 25,
            6 <= bsp <= 11,
            tx < pow2(z as nat),
            vy < pow2(z as nat) + 20,
            px < pow2(bsp as nat),
            py < pow2(bsp as nat),
            forall|j: int|
                0 <= j < needed@.len() ==> (#[trigger] needed@[j]).0 < MAP_WIDTH
                    && needed@[j].1 < MAP_WIDTH && self.loaded(
                    (needed@[j].0 * MAP_WIDTH + needed@[j].1) as u32,
                ),
        ensures
            self.lazy_consistent() ==> lit == shade_bit(
                self.content(),
                tx as int,
                vy as int,
                z as int,
                bsp as int,
                px as int,
                py as int,
            ),
    {
        let side = pow2_u64(bsp as u64);
        let total = pow2_u64(z as u64 + bsp as u64);
        proof {
            vstd::arithmetic::power2::lemma_pow2_adds(z as nat, bsp as nat);
            vstd::arithmetic::power2::lemma_pow2_strictly_increases(bsp as nat, 12);
            vstd::arithmetic::power2::lemma2_to64();
            if z < 25 {
                vstd::arithmetic::power2::lemma_pow2_strictly_increases(z as nat, 25);
            }
            assert(pow2(z as nat) <= 0x200_0000);
            assert(vy * side + py < 0x80_0000_0000u64 && tx * side + px < pow2((z + bsp) as nat))
                by (nonlinear_arith)
                requires
                    tx < pow2(z as nat),
                    vy < pow2(z as nat) + 20,
                    px < side,
                    py < side,
                    side == pow2(bsp as nat),
                    side <= 2048,
                    pow2(z as nat) <= 0x200_0000,
                    pow2((z + bsp) as nat) == pow2(z as nat) * pow2(bsp as nat),
            ;
        }
        let gy = vy * side + py;
        if gy >= total {
            return false;
        }
        let gx = tx * side + px;
        let zb = z as u64 + bsp as u64;
        let wx: u64;
        let wy: u64;
        if zb >= 15 {
            let d = pow2_u64(zb - 15);
            wx = gx / d;
            wy = gy / d;
            proof {
                vstd::arithmetic::power2::lemma_pow2_adds((zb - 15) as nat, 15);
                assert(wx < 0x8000 && wy < 0x8000) by (nonlinear_arith)
                    requires
                        gx < pow2(zb as nat),
                        gy < pow2(zb as nat),
                        d == pow2((zb - 15) as nat),
                        d >= 1,
                        pow2(zb as nat) == pow2((zb - 15) as nat) * pow2(15),
                        pow2(15) == 0x8000,
                        wx == gx / d,
                        wy == gy / d,
                ;
            }
        } else {
            let f = pow2_u64(15 - zb);
            proof {
                vstd::arithmetic::power2::lemma_pow2_adds(zb as nat, (15 - zb) as nat);
                assert(gx * f < 0x8000 && gy * f < 0x8000) by (nonlinear_arith)
                    requires
                        gx < pow2(zb as nat),
                        gy < pow2(zb as nat),
                        f == pow2((15 - zb) as nat),
                        pow2(15nat) == pow2(zb as nat) * pow2((15 - zb) as nat),
                        pow2(15nat) == 0x8000,
                ;
            }
            wx = gx * f;
            wy = gy * f;
        }
        let x16 = (wx / 64) as u16;
        let y16 = (wy / 64) as u16;
        let ghost key = (x16 * MAP_WIDTH + y16) as int;
        proof {
            assert(key == crate::journey_bitmap::pixel_tile_key(wx as int, wy as int));
        }
        let b1 = match self.journey_bitmap.get_tile(x16, y16) {
            Some(t) => t.get_pixel((wx % 64) as u32, (wy % 64) as u32),
            None => false,
        };
        let in_needed = list_has_pair(needed, x16, y16);
        let lit = if in_needed {
            b1
        } else {
            let b2 = match &self.lazy_source {
                Some(src) => match src.decompress_tile(x16, y16) {
                    Some(t) => t.get_pixel((wx % 64) as u32, (wy % 64) as u32),
                    None => false,
                },
                None => false,
            };
            b1 || b2
        };
        proof {
            let j = crate::journey_bitmap::pixel_bit_index(wx as int, wy as int);
            assert((wy as int % 64) * 64 + (wx as int % 64) == j);
            if self.lazy_consistent() {
                let cont = self.content();
                let bmp = self.bitmap();
                assert(b1 == (bmp.contains_key(key) && bmp[key][j]));
                match self.lazy() {
                    None => {
                        assert(bmp == cont);
                    },
                    Some(src) => {
                        if in_needed {
                            let a = choose|a: int|
                                0 <= a < needed@.len() && needed@[a] == (
                                    ((x16 as int) as u16),
                                    ((y16 as int) as u16),
                                );
                            assert(self.loaded(
                                (needed@[a].0 * MAP_WIDTH + needed@[a].1) as u32,
                            ));
                            assert(self.loaded(key as u32));
                            if src.contains_key(key) {
                                assert(bmp.contains_key(key));
                                assert(subsumed(src[key], bmp[key]));
                                assert(cont[key] == crate::journey_bitmap::or_bits(
                                    bmp[key],
                                    src[key],
                                ));
                                assert(cont[key][j] == bmp[key][j]);
                            } else {
                                if bmp.contains_key(key) {
                                    assert(cont[key] == bmp[key]);
                                } else {
                                    assert(!cont.contains_key(key));
                                }
                            }
                        } else {
                            if bmp.contains_key(key) && src.contains_key(key) {
                                assert(cont[key] == crate::journey_bitmap::or_bits(
                                    bmp[key],
                                    src[key],
                                ));
                            } else if bmp.contains_key(key) {
                                assert(cont[key] == bmp[key]);
                            } else if src.contains_key(key) {
                                assert(cont[key] == src[key]);
                            } else {
                                assert(!cont.contains_key(key));
                            }
                        }
                    },
                }
                assert(lit == (cont.contains_key(key) && cont[key][j]));
                assert(lit == bit_at(cont, wx as int, wy as int));
            }
        }
        lit
    }

    /// The pixel list of one view tile, sampling every buffer pixel.
    fn shade_tile(
        &self,
        needed: &Vec<(u16, u16)>,
        tx: u64,
        vy: u64,
        z: u16,
        bsp: u16,
    ) -> (cell: Vec<(u16, u16)>)
        requires
            self.wf(),
            z <= 25,
            6 <= bsp <= 11,
            tx < pow2(z as nat),
            vy < pow2(z as nat) + 20,
            forall|j: int|
                0 <= j < needed@.len() ==> (#[trigger] needed@[j]).0 < MAP_WIDTH
                    && needed@[j].1 < MAP_WIDTH && self.loaded(
                    (needed@[j].0 * MAP_WIDTH + needed@[j].1) as u32,
                ),
        ensures
            self.lazy_consistent() ==> cell@ == cell_pixels(
                self.content(),
                tx as int,
                vy as int,
                z as int,
                bsp as int,
            ),
    {
        let side = pow2_u64(bsp as u64);
        proof {
            vstd::arithmetic::power2::lemma_pow2_strictly_increases(bsp as nat, 12);
            vstd::arithmetic::power2::lemma2_to64();
            assert(side * side <= 2048 * 2048) by (nonlinear_arith)
                requires
                    side <= 2048,
            ;
        }
        let total = side * side;
        let mut cell: Vec<(u16, u16)> = Vec::new();
        let mut cnt: u64 = 0;
        while cnt < total
            invariant
                self.wf(),
                z <= 25,
                6 <= bsp <= 11,
                tx < pow2(z as nat),
                vy < pow2(z as nat) + 20,
                side == pow2(bsp as nat),
                side <= 2048,
                total == side * side,
                cnt <= total,
                forall|j: int|
                    0 <= j < needed@.len() ==> (#[trigger] needed@[j]).0 < MAP_WIDTH
                        && needed@[j].1 < MAP_WIDTH && self.loaded(
                        (needed@[j].0 * MAP_WIDTH + needed@[j].1) as u32,
                    ),
                self.lazy_consistent() ==> cell@ == cell_pixels_upto(
                    self.content(),
                    tx as int,
                    vy as int,
                    z as int,
                    bsp as int,
                    cnt as int,
                ),
            decreases total - cnt,
        {
            let px = cnt % side;
            let py = cnt / side;
            proof {
                assert(py < side) by (nonlinear_arith)
                    requires
                        cnt < total,
                        total == side * side,
                        side >= 1,
                        py == cnt / side,
                ;
            }
            let lit = self.sample_bit(needed, tx, vy, z, bsp, px, py);
            if lit {
                cell.push((px as u16, py as u16));
            }
            proof {
                if self.lazy_consistent() {
                    assert(cell@ =~= cell_pixels_upto(
                        self.content(),
                        tx as int,
                        vy as int,
                        z as int,
                        bsp as int,
                        cnt + 1,
                    ));
                }
            }
            cnt += 1;
        }
        cell
    }

    /// Render one viewport: validate, pre-load every needed tile from the
    /// lazy source, then shade every view tile. The output depends only on
    /// the renderer's content and the request; `x` wraps around the world and
    /// is echoed unwrapped. A frame materializes into the working bitmap
    /// exactly the source tiles the viewport covers, and nothing else.
    pub fn get_tile_buffer(
        &mut self,
        x: i64,
        y: i64,
        z: i16,
        width: i64,
        height: i64,
        buffer_size_power: i16,
    ) -> (r: Result<TileBuffer, RendererError>)
        requires
            old(self).wf(),
        ensures
            final(self).wf(),
            final(self).version() == old(self).version(),
            final(self).lazy() == old(self).lazy(),
            final(self).content() == old(self).content(),
            old(self).lazy_consistent() ==> final(self).lazy_consistent(),
            old(self).lazy() is None ==> *final(self) == *old(self),
            forall|k: u32| old(self).loaded(k) ==> final(self).loaded(k),
            forall|k: u32|
                final(self).loaded(k) ==> old(self).loaded(k) || (k < MAX_TILE_KEY && covered_key(
                    x as int,
                    y as int,
                    z as int,
                    width as int,
                    height as int,
                    k as int,
                )),
            match r {
                Ok(buf) => {
                    &&& viewport_error(
                        x as int,
                        y as int,
                        z as int,
                        width as int,
                        height as int,
                        buffer_size_power as int,
                    ) is None
                    &&& buf.x == x
                    &&& buf.y == y
                    &&& buf.z == z
                    &&& buf.width == width
                    &&& buf.height == height
                    &&& buf.buffer_size_power == buffer_size_power
                    &&& buf.data_view().len() == width * height
                    &&& (old(self).lazy_consistent() ==> forall|idx: int|
                        0 <= idx < width * height ==> #[trigger] buf.data_view()[idx]
                            == cell_pixels(
                            old(self).content(),
                            (x + idx % (width as int)) % (pow2(z as nat) as int),
                            y + idx / (width as int),
                            z as int,
                            buffer_size_power as int,
                        ))
                    &&& (old(self).lazy() is Some && old(self).lazy_consistent()
                        ==> final(self).bitmap() == merge_covered(
                        old(self).bitmap(),
                        old(self).lazy()->Some_0,
                        x as int,
                        y as int,
                        z as int,
                        width as int,
                        height as int,
                    ))
                },
                Err(e) => viewport_error(
                    x as int,
                    y as int,
                    z as int,
                    width as int,
                    height as int,
                    buffer_size_power as int,
                ) == Some(e) && *final(self) == *old(self),
            },
    {
        if width <= 0 || height <= 0 {
            return Err(RendererError::InvalidDimensions);
        }
        if width > 20 || height > 20 {
            return Err(RendererError::DimensionsTooLarge);
        }
        if z < 0 || z > 25 {
            return Err(RendererError::InvalidZoom);
        }
        if buffer_size_power < 6 || buffer_size_power > 11 {
            return Err(RendererError::InvalidBufferSize);
        }
        let m64 = pow2_u64(z as u64);
        proof {
            if z < 25 {
                vstd::arithmetic::power2::lemma_pow2_strictly_increases(z as nat, 25);
            }
            vstd::arithmetic::power2::lemma2_to64();
        }
        if y < 0 || y >= m64 as i64 {
            return Err(RendererError::InvalidYCoordinate);
        }
        let ghost pre = *old(self);
        let has_lazy = self.lazy_source.is_some();
        let needed: Vec<(u16, u16)> = if has_lazy {
            compute_needed_bitmap_tiles(x, y, z, width, height)
        } else {
            Vec::new()
        };
        let nn = needed.len();
        let mut i: usize = 0;
        while i < nn
            invariant
                self.wf(),
                pre.wf(),
                0 < width <= 20,
                0 < height <= 20,
                0 <= z <= 25,
                0 <= y < m64,
                m64 == pow2(z as nat),
                nn == needed@.len(),
                i <= nn,
                self.version() == pre.version(),
                self.lazy() == pre.lazy(),
                self.content() == pre.content(),
                pre.lazy_consistent() ==> self.lazy_consistent(),
                pre.lazy() is None ==> *self == pre,
                pre.lazy() is None ==> nn == 0,
                forall|j: int|
                    0 <= j < nn ==> (#[trigger] needed@[j]).0 < MAP_WIDTH && needed@[j].1
                        < MAP_WIDTH && viewport_covers(
                        x as int,
                        y as int,
                        z as int,
                        width as int,
                        height as int,
                        needed@[j].0 as int,
                        needed@[j].1 as int,
                    ),
                pre.lazy() is Some ==> forall|bx: int, by: int|
                    #[trigger] viewport_covers(
                        x as int,
                        y as int,
                        z as int,
                        width as int,
                        height as int,
                        bx,
                        by,
                    ) ==> tile_listed(needed@, bx, by),
                forall|j: int|
                    0 <= j < i ==> self.loaded(
                        ((#[trigger] needed@[j]).0 * MAP_WIDTH + needed@[j].1) as u32,
                    ),
                forall|k: u32| pre.loaded(k) ==> self.loaded(k),
                forall|k: u32|
                    self.loaded(k) ==> pre.loaded(k) || (k < MAX_TILE_KEY && covered_key(
                        x as int,
                        y as int,
                        z as int,
                        width as int,
                        height as int,
                        k as int,
                    )),
                forall|k: int|
                    pre.bitmap().contains_key(k) ==> #[trigger] self.bitmap().contains_key(k),
                forall|k: int|
                    #[trigger] self.bitmap().contains_key(k) ==> (pre.bitmap().contains_key(k)
                        && self.bitmap()[k] == pre.bitmap()[k]) || (pre.lazy() is Some
                        && covered_key(x as int, y as int, z as int, width as int, height as int, k)
                        && pre.lazy()->Some_0.contains_key(k) && self.bitmap()[k] == (
                        if pre.bitmap().contains_key(k) {
                            crate::journey_bitmap::or_bits(
                                pre.bitmap()[k],
                                pre.lazy()->Some_0[k],
                            )
                        } else {
                            pre.lazy()->Some_0[k]
                        })),
            decreases nn - i,
        {
            let t = needed[i];
            let ghost before = *self;
            self.ensure_tile_loaded(t.0, t.1);
            proof {
                let k0 = (t.0 * MAP_WIDTH + t.1) as int;
                vstd::arithmetic::div_mod::lemma_fundamental_div_mod_converse(
                    k0,
                    MAP_WIDTH as int,
                    t.0 as int,
                    t.1 as int,
                );
                assert(covered_key(
                    x as int,
                    y as int,
                    z as int,
                    width as int,
                    height as int,
                    k0,
                ));
                assert forall|j: int| 0 <= j < i + 1 implies self.loaded(
                    ((#[trigger] needed@[j]).0 * MAP_WIDTH + needed@[j].1) as u32,
                ) by {
                    if j < i {
                        assert(before.loaded(
                            (needed@[j].0 * MAP_WIDTH + needed@[j].1) as u32,
                        ));
                    }
                }
                if before.lazy() is Some && pre.lazy()->Some_0.contains_key(k0)
                    && !before.loaded(k0 as u32) {
                    let src = pre.lazy()->Some_0;
                    match &self.lazy_source {
                        Some(source) => {
                            source.lemma_source_values();
                        },
                        None => {},
                    }
                    assert(self.bitmap() == crate::journey_bitmap::merge_entry(
                        before.bitmap(),
                        k0,
                        src[k0],
                    ));
                    assert forall|k: int| #[trigger] self.bitmap().contains_key(k) implies (
                    pre.bitmap().contains_key(k) && self.bitmap()[k] == pre.bitmap()[k]) || (
                    pre.lazy() is Some && covered_key(
                        x as int,
                        y as int,
                        z as int,
                        width as int,
                        height as int,
                        k,
                    ) && src.contains_key(k) && self.bitmap()[k] == (
                    if pre.bitmap().contains_key(k) {
                        crate::journey_bitmap::or_bits(pre.bitmap()[k], src[k])
                    } else {
                        src[k]
                    })) by {
                        if k == k0 {
                            if before.bitmap().contains_key(k0) {
                                assert(self.bitmap()[k0]
                                    == crate::journey_bitmap::or_bits(
                                    before.bitmap()[k0],
                                    src[k0],
                                ));
                                if pre.bitmap().contains_key(k0) && before.bitmap()[k0]
                                    == pre.bitmap()[k0] {
                                } else {
                                    assert(covered_key(
                                        x as int,
                                        y as int,
                                        z as int,
                                        width as int,
                                        height as int,
                                        k0,
                                    ) && src.contains_key(k0));
                                    if pre.bitmap().contains_key(k0) {
                                        assert(before.bitmap()[k0]
                                            == crate::journey_bitmap::or_bits(
                                            pre.bitmap()[k0],
                                            src[k0],
                                        ));
                                        lemma_or_bits_absorb(pre.bitmap()[k0], src[k0]);
                                        assert(self.bitmap()[k0]
                                            =~= crate::journey_bitmap::or_bits(
                                            pre.bitmap()[k0],
                                            src[k0],
                                        ));
                                    } else {
                                        assert(before.bitmap()[k0] == src[k0]);
                                        self_absorb_helper(src[k0]);
                                        assert(self.bitmap()[k0] =~= src[k0]);
                                    }
                                }
                            } else {
                                assert(self.bitmap()[k0] == src[k0]);
                                assert(!pre.bitmap().contains_key(k0));
                            }
                        } else {
                            assert(self.bitmap()[k] == before.bitmap()[k]);
                            assert(before.bitmap().contains_key(k));
                        }
                    }
                } else {
                    assert(self.bitmap() == before.bitmap());
                }
            }
            i += 1;
        }
        proof {
            if pre.lazy() is Some && pre.lazy_consistent() {
                let src = pre.lazy()->Some_0;
                self.journey_bitmap.lemma_values();
                pre.bitmap_value().lemma_values();
                match &self.lazy_source {
                    Some(source) => {
                        source.lemma_source_values();
                    },
                    None => {},
                }
                assert forall|k: int|
                    src.contains_key(k) && #[trigger] covered_key(
                        x as int,
                        y as int,
                        z as int,
                        width as int,
                        height as int,
                        k,
                    ) implies self.loaded(k as u32) by {
                    assert(0 <= k < MAX_TILE_KEY);
                    assert(viewport_covers(
                        x as int,
                        y as int,
                        z as int,
                        width as int,
                        height as int,
                        k / (MAP_WIDTH as int),
                        k % (MAP_WIDTH as int),
                    ));
                    assert(tile_listed(needed@, k / (MAP_WIDTH as int), k % (MAP_WIDTH as int)));
                    let j = choose|j: int|
                        0 <= j < needed@.len() && needed@[j] == (
                            ((k / (MAP_WIDTH as int)) as u16),
                            ((k % (MAP_WIDTH as int)) as u16),
                        );
                    assert(self.loaded(
                        (needed@[j].0 * MAP_WIDTH + needed@[j].1) as u32,
                    ));
                    assert(needed@[j].0 * MAP_WIDTH + needed@[j].1 == k);
                }
                let goal = merge_covered(
                    pre.bitmap(),
                    src,
                    x as int,
                    y as int,
                    z as int,
                    width as int,
                    height as int,
                );
                assert forall|k: int| #[trigger] goal.contains_key(k) implies
                    self.bitmap().contains_key(k) && self.bitmap()[k] == goal[k] by {
                    if src.contains_key(k) && covered_key(
                        x as int,
                        y as int,
                        z as int,
                        width as int,
                        height as int,
                        k,
                    ) {
                        assert(self.loaded(k as u32));
                        assert(self.bitmap().contains_key(k));
                        assert(subsumed(src[k], self.bitmap()[k]));
                        if pre.bitmap().contains_key(k) && self.bitmap()[k]
                            == pre.bitmap()[k] {
                            assert(goal[k] == crate::journey_bitmap::or_bits(
                                pre.bitmap()[k],
                                src[k],
                            ));
                            assert forall|b: int| 0 <= b < TILE_BITS implies goal[k][b]
                                == self.bitmap()[k][b] by {}
                            assert(goal[k].len() == self.bitmap()[k].len());
                            assert(goal[k] =~= self.bitmap()[k]);
                        } else {
                            assert(self.bitmap()[k] == goal[k]);
                        }
                    } else {
                        assert(pre.bitmap().contains_key(k));
                        assert(self.bitmap().contains_key(k));
                        assert(goal[k] == pre.bitmap()[k]);
                        assert(self.bitmap()[k] == pre.bitmap()[k]);
                    }
                }
                assert forall|k: int| #[trigger] self.bitmap().contains_key(k) implies
                    goal.contains_key(k) by {}
                assert(self.bitmap() =~= goal);
            }
        }
        let ghost loaded_state = *self;
        let m = m64 as i64;
        let mut tile_data: Vec<Vec<(u16, u16)>> = Vec::new();
        let mut dyi: i64 = 0;
        while dyi < height
            invariant
                self.wf(),
                pre.wf(),
                *self == loaded_state,
                0 < width <= 20,
                0 < height <= 20,
                0 <= z <= 25,
                6 <= buffer_size_power <= 11,
                0 <= y < m,
                m == m64,
                m64 == pow2(z as nat),
                0 < m <= 0x200_0000,
                0 <= dyi <= height,
                nn == needed@.len(),
                self.content() == pre.content(),
                pre.lazy_consistent() ==> self.lazy_consistent(),
                forall|j: int|
                    0 <= j < nn ==> (#[trigger] needed@[j]).0 < MAP_WIDTH && needed@[j].1
                        < MAP_WIDTH && self.loaded(
                        (needed@[j].0 * MAP_WIDTH + needed@[j].1) as u32,
                    ),
                tile_data@.len() == dyi * width,
                pre.lazy_consistent() ==> forall|idx: int|
                    0 <= idx < tile_data@.len() ==> #[trigger] tile_data@[idx]@ == cell_pixels(
                        pre.content(),
                        (x + idx % (width as int)) % (m as int),
                        y + idx / (width as int),
                        z as int,
                        buffer_size_power as int,
                    ),
            decreases height - dyi,
        {
            let mut dxi: i64 = 0;
            while dxi < width
                invariant
                    self.wf(),
                    pre.wf(),
                    *self == loaded_state,
                    0 < width <= 20,
                    0 < height <= 20,
                    0 <= z <= 25,
                    6 <= buffer_size_power <= 11,
                    0 <= y < m,
                    m == m64,
                    m64 == pow2(z as nat),
                    0 < m <= 0x200_0000,
                    0 <= dyi < height,
                    0 <= dxi <= width,
                    nn == needed@.len(),
                    self.content() == pre.content(),
                    pre.lazy_consistent() ==> self.lazy_consistent(),
                    forall|j: int|
                        0 <= j < nn ==> (#[trigger] needed@[j]).0 < MAP_WIDTH && needed@[j].1
                            < MAP_WIDTH && self.loaded(
                            (needed@[j].0 * MAP_WIDTH + needed@[j].1) as u32,
                        ),
                    tile_data@.len() == dyi * width + dxi,
                    pre.lazy_consistent() ==> forall|idx: int|
                        0 <= idx < tile_data@.len() ==> #[trigger] tile_data@[idx]@
                            == cell_pixels(
                            pre.content(),
                            (x + idx % (width as int)) % (m as int),
                            y + idx / (width as int),
                            z as int,
                            buffer_size_power as int,
                        ),
                decreases width - dxi,
            {
                let tx = wrap_add(x, dxi, m);
                let vy = y + dyi;
                let cell = self.shade_tile(
                    &needed,
                    tx as u64,
                    vy as u64,
                    z as u16,
                    buffer_size_power as u16,
                );
                tile_data.push(cell);
                proof {
                    vstd::arithmetic::div_mod::lemma_fundamental_div_mod_converse(
                        dyi * width + dxi,
                        width as int,
                        dyi as int,
                        dxi as int,
                    );
                    assert((dyi * width + dxi) % (width as int) == dxi);
                    assert((dyi * width + dxi) / (width as int) == dyi);
                    assert(tile_data@.len() == dyi * width + dxi + 1);
                }
                dxi += 1;
            }
            proof {
                assert(dyi * width + width == (dyi + 1) * width) by (nonlinear_arith)
                ;
            }
            dyi += 1;
        }
        proof {
            assert(tile_data@.len() == height * width) by (nonlinear_arith)
                requires
                    tile_data@.len() == height * width,
            ;
            assert(height * width == width * height) by (nonlinear_arith);
        }
        Ok(
            TileBuffer {
                x,
                y,
                z,
                width,
                height,
                buffer_size_power,
                tile_data,
            },
        )
    }

    /// Whether a key is already marked loaded.
    fn contains_loaded(&self, key: u32) -> (r: bool)
        ensures
            r == self.loaded(key),
    {
        let n = self.loaded_tiles.len();
        let mut i: usize = 0;
        while i < n
            invariant
                n == self.loaded_tiles@.len(),
                i <= n,
                forall|j: int| 0 <= j < i ==> self.loaded_tiles@[j] != key,
            decreases n - i,
        {
            if self.loaded_tiles[i] == key {
                proof {
                    assert(self.loaded_tiles@.contains(key));
                }
                return true;
            }
            i += 1;
        }
        proof {
            if self.loaded_tiles@.contains(key) {
                let j = choose|j: int|
                    0 <= j < self.loaded_tiles@.len() && self.loaded_tiles@[j] == key;
                assert(false);
            }
        }
        false
    }

    /// Drop every cached area entry of one tile key.
    fn remove_area_cache(&mut self, key: u32)
        ensures
            final(self).journey_bitmap == old(self).journey_bitmap,
            final(self).lazy_source == old(self).lazy_source,
            final(self).loaded_tiles == old(self).loaded_tiles,
            final(self).version == old(self).version,
            final(self).current_area == old(self).current_area,
            forall|i: int|
                0 <= i < final(self).tile_area_cache@.len() ==> (#[trigger] final(self).tile_area_cache@[i]).0 != key && exists|j: int|
                    0 <= j < old(self).tile_area_cache@.len() && final(self).tile_area_cache@[i]
                        == old(self).tile_area_cache@[j],
    {
        let ghost orig = self.tile_area_cache@;
        let n = self.tile_area_cache.len();
        let mut kept: Vec<(u32, u64)> = Vec::new();
        let mut i: usize = 0;
        while i < n
            invariant
                n == self.tile_area_cache@.len(),
                self.tile_area_cache@ == orig,
                i <= n,
                forall|a: int|
                    0 <= a < kept@.len() ==> (#[trigger] kept@[a]).0 != key && exists|j: int|
                        0 <= j < orig.len() && kept@[a] == orig[j],
            decreases n - i,
        {
            let e = self.tile_area_cache[i];
            if e.0 != key {
                kept.push(e);
                proof {
                    assert forall|a: int| 0 <= a < kept@.len() implies (#[trigger] kept@[a]).0
                        != key && exists|j: int| 0 <= j < orig.len() && kept@[a] == orig[j] by {
                        if a == kept@.len() - 1 {
                            assert(kept@[a] == orig[i as int]);
                        }
                    }
                }
            }
            i += 1;
        }
        self.tile_area_cache = kept;
    }

    /// Pull every tile of the lazy source into the working bitmap.
    pub fn ensure_all_tiles_loaded(&mut self)
        requires
            old(self).wf(),
        ensures
            final(self).wf(),
            final(self).version() == old(self).version(),
            final(self).lazy() == old(self).lazy(),
            final(self).content() == old(self).content(),
            old(self).lazy_consistent() ==> final(self).lazy_consistent(),
            old(self).lazy_consistent() ==> final(self).bitmap() == old(self).content(),
    {
        let ghost orig = *old(self);
        let keys = match &self.lazy_source {
            Some(src) => src.tile_keys(),
            None => {
                return ;
            },
        };
        let ghost src = orig.lazy()->Some_0;
        let n = keys.len();
        let mut i: usize = 0;
        while i < n
            invariant
                self.wf(),
                n == keys@.len(),
                i <= n,
                orig.wf(),
                orig.lazy() is Some,
                src == orig.lazy()->Some_0,
                self.version() == orig.version(),
                self.lazy() == orig.lazy(),
                self.content() == orig.content(),
                orig.lazy_consistent() ==> self.lazy_consistent(),
                forall|k: u32| orig.loaded(k) ==> self.loaded(k),
                forall|j: int|
                    0 <= j < n ==> (#[trigger] keys@[j]).0 < MAP_WIDTH && keys@[j].1 < MAP_WIDTH,
                forall|k: int|
                    src.contains_key(k) ==> exists|j: int|
                        0 <= j < n && (#[trigger] keys@[j]).0 * MAP_WIDTH + keys@[j].1 == k,
                forall|j: int|
                    0 <= j < i ==> self.loaded(
                        ((#[trigger] keys@[j]).0 * MAP_WIDTH + keys@[j].1) as u32,
                    ),
            decreases n - i,
        {
            let k = keys[i];
            self.ensure_tile_loaded(k.0, k.1);
            i += 1;
        }
        proof {
            if orig.lazy_consistent() {
                assert forall|k: int| #[trigger] src.contains_key(k) implies 0 <= k
                    < MAX_TILE_KEY && self.loaded(k as u32) by {
                    let j = choose|j: int|
                        0 <= j < n && (#[trigger] keys@[j]).0 * MAP_WIDTH + keys@[j].1 == k;
                    assert(self.loaded(((keys@[j]).0 * MAP_WIDTH + keys@[j].1) as u32));
                }
                self.journey_bitmap.lemma_values();
                lemma_loaded_all_merged(*self, orig);
            }
        }
    }
}


/// Every bit set in `a` is set in `b`.
pub open spec fn subsumed(a: Seq<bool>, b: Seq<bool>) -> bool {
    forall|j: int| 0 <= j < TILE_BITS ==> (a[j] ==> b[j])
}



/// Marking as loaded a key the source does not hold keeps the bitmap
/// consistent with the source.
proof fn lemma_consistent_extend(pre: MapRenderer, post: MapRenderer, key: u32)
    requires
        post.lazy() == pre.lazy(),
        post.bitmap() == pre.bitmap(),
        forall|k: u32| post.loaded(k) ==> k == key || pre.loaded(k),
        match pre.lazy() {
            Some(src) => !src.contains_key(key as int),
            None => true,
        },
    ensures
        pre.lazy_consistent() ==> post.lazy_consistent(),
{
    if pre.lazy_consistent() {
        match pre.lazy() {
            Some(src) => {
                assert forall|k: u32| post.loaded(k) && src.contains_key(k as int) implies post.bitmap().contains_key(k as int) && subsumed(src[k as int], post.bitmap()[k as int]) by {
                    assert(k != key);
                    assert(pre.loaded(k));
                }
            },
            None => {},
        }
    }
}

/// Folding a raster into itself changes nothing.
proof fn self_absorb_helper(a: Seq<bool>)
    requires
        a.len() == TILE_BITS,
    ensures
        crate::journey_bitmap::or_bits(a, a) =~= a,
{
    assert forall|j: int| 0 <= j < TILE_BITS implies crate::journey_bitmap::or_bits(a, a)[j]
        == a[j] by {}
}

/// Folding a raster in twice adds nothing.
proof fn lemma_or_bits_absorb(a: Seq<bool>, b: Seq<bool>)
    ensures
        crate::journey_bitmap::or_bits(crate::journey_bitmap::or_bits(a, b), b)
            =~= crate::journey_bitmap::or_bits(a, b),
{
    let x = crate::journey_bitmap::or_bits(a, b);
    let y = crate::journey_bitmap::or_bits(x, b);
    assert forall|j: int| 0 <= j < TILE_BITS implies y[j] == x[j] by {}
}

/// Folding a source tile into the base does not change the merged whole.
proof fn lemma_merge_entry_absorb(base: Map<int, Seq<bool>>, src: Map<int, Seq<bool>>, k: int)
    requires
        src.contains_key(k),
        src[k].len() == TILE_BITS,
    ensures
        crate::journey_bitmap::merge_bm(
            crate::journey_bitmap::merge_entry(base, k, src[k]),
            src,
        ) == crate::journey_bitmap::merge_bm(base, src),
{
    let base2 = crate::journey_bitmap::merge_entry(base, k, src[k]);
    let lhs = crate::journey_bitmap::merge_bm(base2, src);
    let rhs = crate::journey_bitmap::merge_bm(base, src);
    assert forall|k2: int| #[trigger] lhs.contains_key(k2) implies lhs[k2] == rhs[k2] by {
        if k2 == k {
            assert(base2.contains_key(k));
            assert(lhs[k2] == crate::journey_bitmap::or_bits(base2[k], src[k]));
            if base.contains_key(k) {
                assert(base2[k] == crate::journey_bitmap::or_bits(base[k], src[k]));
                assert(rhs[k2] == crate::journey_bitmap::or_bits(base[k], src[k]));
                lemma_or_bits_absorb(base[k], src[k]);
                assert(lhs[k2] == crate::journey_bitmap::or_bits(rhs[k2], src[k]));
                assert(lhs[k2] =~= rhs[k2]);
            } else {
                assert(base2[k] == src[k]);
                assert(rhs[k2] == src[k]);
                assert(lhs[k2] == crate::journey_bitmap::or_bits(src[k], src[k]));
                assert forall|j: int| 0 <= j < TILE_BITS implies lhs[k2][j] == rhs[k2][j] by {}
                assert(lhs[k2].len() == rhs[k2].len());
                assert(lhs[k2] =~= rhs[k2]);
            }
        } else {
            assert(base2.contains_key(k2) == base.contains_key(k2));
            if base.contains_key(k2) {
                assert(base2[k2] == base[k2]);
            }
        }
    }
    assert(lhs =~= rhs);
}

/// Once every source tile is marked loaded and folded in, the working bitmap
/// is exactly the old content.
proof fn lemma_loaded_all_merged(cur: MapRenderer, orig: MapRenderer)
    requires
        cur.lazy() is Some,
        cur.lazy() == orig.lazy(),
        cur.content() == orig.content(),
        cur.lazy_consistent(),
        forall|k: int|
            #[trigger] cur.lazy()->Some_0.contains_key(k) ==> 0 <= k < MAX_TILE_KEY && cur.loaded(
                k as u32,
            ),
        forall|k: int|
            #[trigger] cur.bitmap().contains_key(k) ==> cur.bitmap()[k].len() == TILE_BITS,
    ensures
        cur.bitmap() == orig.content(),
{
    let src = cur.lazy()->Some_0;
    let bm = cur.bitmap();
    let merged = crate::journey_bitmap::merge_bm(bm, src);
    assert forall|k: int| #[trigger] merged.contains_key(k) implies bm.contains_key(k) && bm[k]
        == merged[k] by {
        if src.contains_key(k) {
            assert(0 <= k < MAX_TILE_KEY && cur.loaded(k as u32));
            assert(subsumed(src[k], bm[k]));
            assert(bm.contains_key(k));
            assert(bm[k].len() == TILE_BITS);
            assert(bm[k] =~= crate::journey_bitmap::or_bits(bm[k], src[k])) by {
                assert forall|j: int| 0 <= j < TILE_BITS implies crate::journey_bitmap::or_bits(
                    bm[k],
                    src[k],
                )[j] == bm[k][j] by {}
            }
        }
    }
    assert(bm =~= merged);
}


/// The lowercase hex digit for a value below sixteen.
pub open spec fn hex_char(d: int) -> char {
    if d == 0 {
        '0'
    } else if d == 1 {
        '1'
    } else if d == 2 {
        '2'
    } else if d == 3 {
        '3'
    } else if d == 4 {
        '4'
    } else if d == 5 {
        '5'
    } else if d == 6 {
        '6'
    } else if d == 7 {
        '7'
    } else if d == 8 {
        '8'
    } else if d == 9 {
        '9'
    } else if d == 10 {
        'a'
    } else if d == 11 {
        'b'
    } else if d == 12 {
        'c'
    } else if d == 13 {
        'd'
    } else if d == 14 {
        'e'
    } else {
        'f'
    }
}

/// The lowercase hex rendering of a value, without leading zeros.
pub open spec fn hex_seq(v: int) -> Seq<char>
    decreases v,
{
    if v < 16 {
        seq![hex_char(v)]
    } else {
        hex_seq(v / 16).push(hex_char(v % 16))
    }
}

/// One lowercase hex digit as a string slice.
fn hex_digit_str(d: u64) -> (r: &'static str)
    requires
        d < 16,
    ensures
        r@ == seq![hex_char(d as int)],
{
    let r: &'static str = if d == 0 {
        "0"
    } else if d == 1 {
        "1"
    } else if d == 2 {
        "2"
    } else if d == 3 {
        "3"
    } else if d == 4 {
        "4"
    } else if d == 5 {
        "5"
    } else if d == 6 {
        "6"
    } else if d == 7 {
        "7"
    } else if d == 8 {
        "8"
    } else if d == 9 {
        "9"
    } else if d == 10 {
        "a"
    } else if d == 11 {
        "b"
    } else if d == 12 {
        "c"
    } else if d == 13 {
        "d"
    } else if d == 14 {
        "e"
    } else {
        "f"
    };
    proof {
        reveal_strlit("0");
        reveal_strlit("1");
        reveal_strlit("2");
        reveal_strlit("3");
        reveal_strlit("4");
        reveal_strlit("5");
        reveal_strlit("6");
        reveal_strlit("7");
        reveal_strlit("8");
        reveal_strlit("9");
        reveal_strlit("a");
        reveal_strlit("b");
        reveal_strlit("c");
        reveal_strlit("d");
        reveal_strlit("e");
        reveal_strlit("f");
        assert(r@ =~= seq![hex_char(d as int)]);
    }
    r
}

/// Render a value as lowercase hex with no leading zeros.
fn hex_string(v: u64) -> (r: String)
    ensures
        r@ == hex_seq(v as int),
    decreases v,
{
    if v < 16 {
        let r = hex_digit_str(v).to_owned();
        r
    } else {
        let mut r = hex_string(v / 16);
        r.append(hex_digit_str(v % 16));
        proof {
            assert(r@ =~= hex_seq(v as int));
        }
        r
    }
}

/// The value of one hex digit byte, or 16 for any other byte.
pub open spec fn hex_digit_val(c: u8) -> int {
    if '0' as u8 <= c <= '9' as u8 {
        c - ('0' as u8)
    } else if 'a' as u8 <= c <= 'f' as u8 {
        c - ('a' as u8) + 10
    } else if 'A' as u8 <= c <= 'F' as u8 {
        c - ('A' as u8) + 10
    } else {
        16
    }
}

/// The value of the hex digits `b[lo..i]`, read left to right.
pub open spec fn hex_prefix_val(b: Seq<u8>, lo: int, i: int) -> int
    decreases i - lo,
{
    if i <= lo {
        0
    } else {
        hex_prefix_val(b, lo, i - 1) * 16 + hex_digit_val(b[i - 1])
    }
}

/// Index after the leading quote bytes from position `i` on.
pub open spec fn skip_quotes(b: Seq<u8>, i: int) -> int
    decreases b.len() - i,
{
    if 0 <= i < b.len() && b[i] == '"' as u8 {
        skip_quotes(b, i + 1)
    } else {
        i
    }
}

/// Index before the trailing quote bytes, scanning down from `i` to `lo`.
pub open spec fn skip_quotes_back(b: Seq<u8>, i: int, lo: int) -> int
    decreases i - lo,
{
    if lo < i <= b.len() && b[i - 1] == '"' as u8 {
        skip_quotes_back(b, i - 1, lo)
    } else {
        i
    }
}

/// What parsing a version string yields: strip the surrounding quote bytes,
/// then read the rest as hex, accepting one leading plus sign.
pub open spec fn spec_parse_version(b: Seq<u8>) -> Option<u64> {
    let lo0 = skip_quotes(b, 0);
    let hi = skip_quotes_back(b, b.len() as int, lo0);
    let lo = if lo0 < hi && b[lo0] == '+' as u8 {
        lo0 + 1
    } else {
        lo0
    };
    if lo < hi && (forall|j: int| lo <= j < hi ==> hex_digit_val(b[j]) < 16) && hex_prefix_val(
        b,
        lo,
        hi,
    ) < 0x1_0000_0000_0000_0000 {
        Some(hex_prefix_val(b, lo, hi) as u64)
    } else {
        None
    }
}

/// Growing the digit span never shrinks the value.
proof fn lemma_hex_prefix_monotone(b: Seq<u8>, lo: int, i: int, j: int)
    requires
        lo <= i <= j,
        forall|p: int| lo <= p < j ==> hex_digit_val(b[p]) >= 0,
    ensures
        hex_prefix_val(b, lo, i) <= hex_prefix_val(b, lo, j),
    decreases j - i,
{
    if i < j {
        lemma_hex_prefix_monotone(b, lo, i, j - 1);
        lemma_hex_prefix_nonneg(b, lo, j - 1);
        assert(hex_prefix_val(b, lo, j) == hex_prefix_val(b, lo, j - 1) * 16 + hex_digit_val(
            b[j - 1],
        ));
        assert(hex_prefix_val(b, lo, j - 1) * 16 >= hex_prefix_val(b, lo, j - 1)) by (nonlinear_arith)
            requires
                hex_prefix_val(b, lo, j - 1) >= 0,
        ;
    }
}

/// A digit-span value is never negative.
proof fn lemma_hex_prefix_nonneg(b: Seq<u8>, lo: int, i: int)
    ensures
        hex_prefix_val(b, lo, i) >= 0,
    decreases i - lo,
{
    if i > lo {
        lemma_hex_prefix_nonneg(b, lo, i - 1);
        assert(hex_prefix_val(b, lo, i - 1) * 16 >= 0) by (nonlinear_arith)
            requires
                hex_prefix_val(b, lo, i - 1) >= 0,
        ;
    }
}


/// The numeric value of a hex digit byte, or 16 for any other byte.
fn hex_val_exec(c: u8) -> (v: u8)
    ensures
        v == hex_digit_val(c),
{
    if c >= '0' as u8 && c <= '9' as u8 {
        c - '0' as u8
    } else if c >= 'a' as u8 && c <= 'f' as u8 {
        c - 'a' as u8 + 10
    } else if c >= 'A' as u8 && c <= 'F' as u8 {
        c - 'A' as u8 + 10
    } else {
        16
    }
}


/// What a viewport request can be refused for.
#[derive(Debug, PartialEq, Eq, Structural, Clone, Copy)]
pub enum RendererError {
    /// Width or height is zero or negative.
    InvalidDimensions,
    /// Width or height is above the twenty-tile limit.
    DimensionsTooLarge,
    /// Zoom level outside the supported range.
    InvalidZoom,
    /// Buffer size power outside the supported range.
    InvalidBufferSize,
    /// The y coordinate names no tile row at this zoom level.
    InvalidYCoordinate,
}

impl RendererError {
    /// A short description of the refusal.
    pub fn message(&self) -> String {
        let text = match self {
            RendererError::InvalidDimensions => "width and height must be positive",
            RendererError::DimensionsTooLarge => "width and height must be at most 20 tiles",
            RendererError::InvalidZoom => "zoom level must be between 0 and 25",
            RendererError::InvalidBufferSize => "buffer size power must be between 6 and 11",
            RendererError::InvalidYCoordinate => "y must name a tile row at this zoom level",
        };
        text.to_owned()
    }
}

/// Which refusal, if any, a viewport request earns. Requests are validated
/// before any tile is touched.
pub open spec fn viewport_error(
    x: int,
    y: int,
    z: int,
    width: int,
    height: int,
    buffer_size_power: int,
) -> Option<RendererError> {
    if width <= 0 || height <= 0 {
        Some(RendererError::InvalidDimensions)
    } else if width > 20 || height > 20 {
        Some(RendererError::DimensionsTooLarge)
    } else if z < 0 || z > 25 {
        Some(RendererError::InvalidZoom)
    } else if buffer_size_power < 6 || buffer_size_power > 11 {
        Some(RendererError::InvalidBufferSize)
    } else if y < 0 || y >= pow2(z as nat) {
        Some(RendererError::InvalidYCoordinate)
    } else {
        None
    }
}

/// The presence bit of the world pixel `(wx, wy)` in a tile map.
pub open spec fn bit_at(m: Map<int, Seq<bool>>, wx: int, wy: int) -> bool {
    let k = crate::journey_bitmap::pixel_tile_key(wx, wy);
    m.contains_key(k) && m[k][crate::journey_bitmap::pixel_bit_index(wx, wy)]
}

/// Whether buffer pixel `(px, py)` of view tile `(tx, vy)` at zoom `z` with a
/// `2^bsp`-pixel buffer samples a lit bit of the map.
pub open spec fn shade_bit(
    m: Map<int, Seq<bool>>,
    tx: int,
    vy: int,
    z: int,
    bsp: int,
    px: int,
    py: int,
) -> bool {
    let gx = tx * pow2(bsp as nat) + px;
    let gy = vy * pow2(bsp as nat) + py;
    if gy < pow2((z + bsp) as nat) {
        let wx = if z + bsp >= 15 {
            gx / pow2((z + bsp - 15) as nat) as int
        } else {
            gx * pow2((15 - z - bsp) as nat)
        };
        let wy = if z + bsp >= 15 {
            gy / pow2((z + bsp - 15) as nat) as int
        } else {
            gy * pow2((15 - z - bsp) as nat)
        };
        bit_at(m, wx, wy)
    } else {
        false
    }
}

/// The lit pixels of one view tile among the first `cnt` sample positions,
/// in row-major order.
pub open spec fn cell_pixels_upto(
    m: Map<int, Seq<bool>>,
    tx: int,
    vy: int,
    z: int,
    bsp: int,
    cnt: int,
) -> Seq<(u16, u16)>
    decreases cnt,
{
    if cnt <= 0 {
        Seq::empty()
    } else {
        let side = pow2(bsp as nat) as int;
        let px = (cnt - 1) % side;
        let py = (cnt - 1) / side;
        cell_pixels_upto(m, tx, vy, z, bsp, cnt - 1) + if shade_bit(m, tx, vy, z, bsp, px, py) {
            seq![(px as u16, py as u16)]
        } else {
            Seq::empty()
        }
    }
}

/// The lit pixels of one view tile, in row-major order.
pub open spec fn cell_pixels(m: Map<int, Seq<bool>>, tx: int, vy: int, z: int, bsp: int) -> Seq<
    (u16, u16),
> {
    cell_pixels_upto(m, tx, vy, z, bsp, pow2(bsp as nat) as int * pow2(bsp as nat) as int)
}

/// The renderable output of one viewport request: the echoed request and one
/// pixel list per view tile, in row-major order.
#[derive(Debug)]
pub struct TileBuffer {
    pub x: i64,
    pub y: i64,
    pub z: i16,
    pub width: i64,
    pub height: i64,
    pub buffer_size_power: i16,
    pub tile_data: Vec<Vec<(u16, u16)>>,
}

impl TileBuffer {
    /// The pixel lists as a sequence of sequences.
    pub open spec fn data_view(&self) -> Seq<Seq<(u16, u16)>> {
        Seq::new(self.tile_data@.len(), |i: int| self.tile_data@[i]@)
    }

    /// Position of view tile `(tile_x, tile_y)` in the row-major pixel lists.
    pub fn calculate_tile_index(&self, tile_x: i64, tile_y: i64) -> (idx: usize)
        requires
            0 < self.width <= 20,
            0 < self.height <= 20,
            self.x <= tile_x < self.x + self.width,
            self.y <= tile_y < self.y + self.height,
        ensures
            idx == (tile_y - self.y) * self.width + (tile_x - self.x),
    {
        proof {
            assert(0 <= tile_y - self.y < 20);
            assert(0 <= tile_x - self.x < 20);
        }
        let dy = tile_y - self.y;
        let dx = tile_x - self.x;
        proof {
            assert(0 <= dy * self.width <= 400) by (nonlinear_arith)
                requires
                    0 <= dy < 20,
                    0 < self.width <= 20,
            ;
        }
        (dy * self.width + dx) as usize
    }

    /// Whether two buffers carry the same request and the same pixels.
    pub fn same_buffer(&self, other: &TileBuffer) -> (r: bool)
        ensures
            r == (self.x == other.x && self.y == other.y && self.z == other.z && self.width
                == other.width && self.height == other.height && self.buffer_size_power
                == other.buffer_size_power && self.data_view() == other.data_view()),
    {
        if self.x != other.x || self.y != other.y || self.z != other.z || self.width
            != other.width || self.height != other.height || self.buffer_size_power
            != other.buffer_size_power {
            return false;
        }
        let n = self.tile_data.len();
        if n != other.tile_data.len() {
            proof {
                assert(self.data_view().len() != other.data_view().len());
            }
            return false;
        }
        let mut i: usize = 0;
        while i < n
            invariant
                n == self.tile_data@.len(),
                n == other.tile_data@.len(),
                i <= n,
                forall|a: int| 0 <= a < i ==> self.data_view()[a] == other.data_view()[a],
            decreases n - i,
        {
            let ca = &self.tile_data[i];
            let cb = &other.tile_data[i];
            let m = ca.len();
            if m != cb.len() {
                proof {
                    assert(self.data_view()[i as int] == ca@);
                    assert(other.data_view()[i as int] == cb@);
                }
                return false;
            }
            let mut j: usize = 0;
            while j < m
                invariant
                    m == ca@.len(),
                    m == cb@.len(),
                    j <= m,
                    i < n,
                    n == self.tile_data@.len(),
                    n == other.tile_data@.len(),
                    ca@ == self.tile_data@[i as int]@,
                    cb@ == other.tile_data@[i as int]@,
                    forall|b: int| 0 <= b < j ==> ca@[b] == cb@[b],
                decreases m - j,
            {
                let pa = ca[j];
                let pb = cb[j];
                if pa.0 != pb.0 || pa.1 != pb.1 {
                    proof {
                        assert(self.data_view()[i as int] == ca@);
                        assert(other.data_view()[i as int] == cb@);
                        assert(ca@[j as int] != cb@[j as int]);
                    }
                    return false;
                }
                j += 1;
            }
            proof {
                assert(ca@ =~= cb@);
                assert forall|a: int| 0 <= a < i + 1 implies self.data_view()[a]
                    == other.data_view()[a] by {
                    if a == i {
                        assert(self.data_view()[a] == ca@);
                    }
                }
            }
            i += 1;
        }
        proof {
            assert(self.data_view() =~= other.data_view());
        }
        true
    }
}

/// `2^e` as a machine word.
fn pow2_u64(e: u64) -> (r: u64)
    requires
        e <= 62,
    ensures
        r == pow2(e as nat),
{
    proof {
        vstd::arithmetic::power2::lemma2_to64();
    }
    let mut r: u64 = 1;
    let mut i: u64 = 0;
    while i < e
        invariant
            i <= e <= 62,
            r == pow2(i as nat),
            r < 0x8000_0000_0000_0000,
        decreases e - i,
    {
        proof {
            vstd::arithmetic::power2::lemma_pow2_unfold((i + 1) as nat);
            vstd::arithmetic::power2::lemma_pow2_strictly_increases((i + 1) as nat, 63);
            vstd::arithmetic::power2::lemma2_to64_rest();
            assert(pow2(63) == 0x8000_0000_0000_0000);
            assert(2 * pow2(i as nat) == pow2((i + 1) as nat));
        }
        r = r * 2;
        i += 1;
    }
    r
}

/// The nonnegative remainder of `x` modulo `m`.
fn euclid_mod(x: i64, m: i64) -> (r: i64)
    requires
        0 < m <= 0x200_0000,
    ensures
        r == x as int % (m as int),
        0 <= r < m,
{
    let t = x % m;
    if t < 0 {
        proof {
            let a = -(x as int);
            let u = a % (m as int);
            assert(t == -u);
            vstd::arithmetic::div_mod::lemma_fundamental_div_mod(a, m as int);
            let k = a / (m as int);
            assert(x as int == (-k - 1) * (m as int) + ((m as int) - u)) by (nonlinear_arith)
                requires
                    a == (m as int) * k + u,
                    a == -(x as int),
            ;
            vstd::arithmetic::div_mod::lemma_fundamental_div_mod_converse(
                x as int,
                m as int,
                -k - 1,
                (m as int) - u,
            );
        }
        t + m
    } else {
        proof {
            if x < 0 {
                let a = -(x as int);
                let u = a % (m as int);
                assert(t == -u);
                assert(u == 0);
                vstd::arithmetic::div_mod::lemma_fundamental_div_mod(a, m as int);
                let k = a / (m as int);
                assert(x as int == (-k) * (m as int) + 0) by (nonlinear_arith)
                    requires
                        a == (m as int) * k + 0,
                        a == -(x as int),
                ;
                vstd::arithmetic::div_mod::lemma_fundamental_div_mod_converse(
                    x as int,
                    m as int,
                    -k,
                    0,
                );
            }
        }
        t
    }
}


/// Whether bitmap tile `(bx, by)` lies under view tile `(x + dx, y + dy)` at
/// zoom `z` (x wrapping around the world, rows outside it clipped).
pub open spec fn tile_of_view(
    x: int,
    y: int,
    z: int,
    dx: int,
    dy: int,
    bx: int,
    by: int,
) -> bool {
    let vx = (x + dx) % (pow2(z as nat) as int);
    let vy = y + dy;
    if z >= 9 {
        let zd = pow2((z - 9) as nat) as int;
        bx == vx / zd && by == vy / zd && by < 512
    } else {
        let sc = pow2((9 - z) as nat) as int;
        vx * sc <= bx < vx * sc + sc && vy * sc <= by < vy * sc + sc && by < 512
    }
}

/// Whether some view tile of the viewport covers bitmap tile `(bx, by)`.
pub open spec fn viewport_covers(
    x: int,
    y: int,
    z: int,
    width: int,
    height: int,
    bx: int,
    by: int,
) -> bool {
    exists|dx: int, dy: int|
        0 <= dx < width && 0 <= dy < height && tile_of_view(x, y, z, dx, dy, bx, by)
}

/// The wrapped view-tile column `(x + dx) mod 2^z`.
fn wrap_add(x: i64, dx: i64, m: i64) -> (r: i64)
    requires
        0 < m <= 0x200_0000,
        0 <= dx <= 20,
    ensures
        r == (x + dx) % (m as int),
        0 <= r < m,
{
    let xw = euclid_mod(x, m);
    let r = euclid_mod(xw + dx, m);
    proof {
        vstd::arithmetic::div_mod::lemma_fundamental_div_mod(x as int, m as int);
        let q = (x as int) / (m as int);
        vstd::arithmetic::div_mod::lemma_fundamental_div_mod((xw + dx) as int, m as int);
        let k = ((xw + dx) as int) / (m as int);
        assert((x + dx) as int == (q + k) * (m as int) + r) by (nonlinear_arith)
            requires
                x as int == (m as int) * q + xw,
                (xw + dx) as int == (m as int) * k + r,
        ;
        vstd::arithmetic::div_mod::lemma_fundamental_div_mod_converse(
            (x + dx) as int,
            m as int,
            q + k,
            r as int,
        );
    }
    r
}

/// Whether tile key `k` names a tile under some view tile of the viewport.
pub open spec fn covered_key(x: int, y: int, z: int, w: int, h: int, k: int) -> bool {
    0 <= k && viewport_covers(x, y, z, w, h, k / (MAP_WIDTH as int), k % (MAP_WIDTH as int))
}

/// The working map after one frame of the viewport: the base bitmap with
/// exactly the covered source tiles folded in.
pub open spec fn merge_covered(
    base: Map<int, Seq<bool>>,
    src: Map<int, Seq<bool>>,
    x: int,
    y: int,
    z: int,
    w: int,
    h: int,
) -> Map<int, Seq<bool>> {
    Map::new(
        |k: int| base.contains_key(k) || (src.contains_key(k) && covered_key(x, y, z, w, h, k)),
        |k: int|
            if src.contains_key(k) && covered_key(x, y, z, w, h, k) {
                if base.contains_key(k) {
                    crate::journey_bitmap::or_bits(base[k], src[k])
                } else {
                    src[k]
                }
            } else {
                base[k]
            },
    )
}

/// Whether the pair `(bx, by)` stands somewhere in the list.
pub open spec fn tile_listed(s: Seq<(u16, u16)>, bx: int, by: int) -> bool {
    exists|i: int| 0 <= i < s.len() && s[i] == ((bx as u16), (by as u16))
}

/// The bitmap tiles a viewport needs: exactly the tiles under some view tile
/// of the `width x height` rectangle at `(x, y)`, zoom `z`, each listed once.
pub fn compute_needed_bitmap_tiles(x: i64, y: i64, z: i16, width: i64, height: i64) -> (r: Vec<
    (u16, u16),
>)
    requires
        0 < width <= 20,
        0 < height <= 20,
        0 <= z <= 25,
        0 <= y < pow2(z as nat),
    ensures
        forall|i: int, j: int| 0 <= i < j < r@.len() ==> r@[i] != r@[j],
        forall|i: int|
            0 <= i < r@.len() ==> (#[trigger] r@[i]).0 < MAP_WIDTH && r@[i].1 < MAP_WIDTH
                && viewport_covers(
                x as int,
                y as int,
                z as int,
                width as int,
                height as int,
                r@[i].0 as int,
                r@[i].1 as int,
            ),
        forall|bx: int, by: int|
            #[trigger] viewport_covers(x as int, y as int, z as int, width as int, height as int, bx, by)
                ==> tile_listed(r@, bx, by),
{
    let m = pow2_u64(z as u64) as i64;
    proof {
        if z < 25 {
            vstd::arithmetic::power2::lemma_pow2_strictly_increases(z as nat, 25);
        }
        vstd::arithmetic::power2::lemma2_to64();
    }
    let mut r: Vec<(u16, u16)> = Vec::new();
    let mut dy: i64 = 0;
    while dy < height
        invariant
            0 < width <= 20,
            0 < height <= 20,
            0 <= z <= 25,
            0 <= dy <= height,
            m == pow2(z as nat),
            0 < m <= 0x200_0000,
            0 <= y < m,
            forall|i: int, j: int| 0 <= i < j < r@.len() ==> r@[i] != r@[j],
            forall|i: int|
                0 <= i < r@.len() ==> (#[trigger] r@[i]).0 < MAP_WIDTH && r@[i].1 < MAP_WIDTH
                    && viewport_covers(
                    x as int,
                    y as int,
                    z as int,
                    width as int,
                    height as int,
                    r@[i].0 as int,
                    r@[i].1 as int,
                ),
            forall|bx: int, by: int, dxp: int, dyp: int|
                0 <= dxp < width && 0 <= dyp < dy && #[trigger] tile_of_view(
                    x as int,
                    y as int,
                    z as int,
                    dxp,
                    dyp,
                    bx,
                    by,
                ) ==> tile_listed(r@, bx, by),
        decreases height - dy,
    {
        let mut dx: i64 = 0;
        while dx < width
            invariant
                0 < width <= 20,
                0 < height <= 20,
                0 <= z <= 25,
                0 <= dy < height,
                0 <= dx <= width,
                m == pow2(z as nat),
                0 < m <= 0x200_0000,
                0 <= y < m,
                forall|i: int, j: int| 0 <= i < j < r@.len() ==> r@[i] != r@[j],
                forall|i: int|
                    0 <= i < r@.len() ==> (#[trigger] r@[i]).0 < MAP_WIDTH && r@[i].1 < MAP_WIDTH
                        && viewport_covers(
                        x as int,
                        y as int,
                        z as int,
                        width as int,
                        height as int,
                        r@[i].0 as int,
                        r@[i].1 as int,
                    ),
                forall|bx: int, by: int, dxp: int, dyp: int|
                    0 <= dxp < width && 0 <= dyp < dy && #[trigger] tile_of_view(
                        x as int,
                        y as int,
                        z as int,
                        dxp,
                        dyp,
                        bx,
                        by,
                    ) ==> tile_listed(r@, bx, by),
                forall|bx: int, by: int, dxp: int|
                    0 <= dxp < dx && #[trigger] tile_of_view(
                        x as int,
                        y as int,
                        z as int,
                        dxp,
                        dy as int,
                        bx,
                        by,
                    ) ==> tile_listed(r@, bx, by),
            decreases width - dx,
        {
            let ghost r_at_dx = r@;
            let vx = wrap_add(x, dx, m);
            let vy = y + dy;
            if z >= 9 {
                let zd = pow2_u64((z - 9) as u64) as i64;
                proof {
                    vstd::arithmetic::power2::lemma_pow2_adds((z - 9) as nat, 9);
                    vstd::arithmetic::power2::lemma2_to64();
                    assert(pow2(9nat) == 512);
                    assert(m == pow2((z - 9) as nat) * 512);
                    assert(vx / zd < 512) by (nonlinear_arith)
                        requires
                            0 <= vx < m,
                            m == pow2((z - 9) as nat) * 512,
                            zd == pow2((z - 9) as nat),
                            zd >= 1,
                    ;
                }
                let bx = vx / zd;
                let byv = vy / zd;
                if byv < 512 {
                    proof {
                        assert(tile_of_view(
                            x as int,
                            y as int,
                            z as int,
                            dx as int,
                            dy as int,
                            bx as int,
                            byv as int,
                        ));
                    }
                    push_unique(&mut r, bx as u16, byv as u16, Ghost((
                        x as int,
                        y as int,
                        z as int,
                        width as int,
                        height as int,
                    )));
                }
                proof {
                    assert forall|bx2: int, by2: int, dxp: int|
                        0 <= dxp < dx + 1 && #[trigger] tile_of_view(
                            x as int,
                            y as int,
                            z as int,
                            dxp,
                            dy as int,
                            bx2,
                            by2,
                        ) implies tile_listed(r@, bx2, by2) by {
                        if dxp == dx {
                            assert(bx2 == bx && by2 == byv && byv < 512);
                            assert(tile_listed(r@, bx as int, byv as int));
                        } else {
                            assert(tile_listed(r_at_dx, bx2, by2));
                        }
                    }
                }
            } else {
                let sc = pow2_u64((9 - z) as u64) as i64;
                proof {
                    vstd::arithmetic::power2::lemma_pow2_adds(z as nat, (9 - z) as nat);
                    vstd::arithmetic::power2::lemma2_to64();
                    assert(pow2(9nat) == 512);
                    assert(vx * sc + sc <= 512) by (nonlinear_arith)
                        requires
                            0 <= vx < m,
                            512 == m * sc,
                            sc >= 1,
                    ;
                }
                let mut u: i64 = 0;
                while u < sc
                    invariant
                        0 < width <= 20,
                        0 < height <= 20,
                        0 <= z < 9,
                        0 <= dy < height,
                        0 <= dx < width,
                        m == pow2(z as nat),
                        0 < m <= 0x200_0000,
                        0 <= y < m,
                        sc == pow2((9 - z) as nat),
                        0 <= vx < m,
                        vx == (x + dx) % (m as int),
                        vy == y + dy,
                        0 <= vy <= m + 20,
                        vx * sc + sc <= 512,
                        0 <= u <= sc,
                        forall|i: int, j: int| 0 <= i < j < r@.len() ==> r@[i] != r@[j],
                        forall|i: int|
                            0 <= i < r@.len() ==> (#[trigger] r@[i]).0 < MAP_WIDTH && r@[i].1
                                < MAP_WIDTH && viewport_covers(
                                x as int,
                                y as int,
                                z as int,
                                width as int,
                                height as int,
                                r@[i].0 as int,
                                r@[i].1 as int,
                            ),
                        forall|bx2: int, by2: int|
                            tile_listed(r_at_dx, bx2, by2) ==> tile_listed(r@, bx2, by2),
                        forall|bxp: int, byp: int|
                            vx * sc <= bxp < vx * sc + u && vy * sc <= byp < vy * sc + sc && byp
                                < 512 ==> tile_listed(r@, bxp, byp),
                    decreases sc - u,
                {
                    let ghost r_at_u = r@;
                    let bx = vx * sc + u;
                    let mut v: i64 = 0;
                    while v < sc
                        invariant
                            0 < width <= 20,
                            0 < height <= 20,
                            0 <= z < 9,
                            0 <= dy < height,
                            0 <= dx < width,
                            m == pow2(z as nat),
                            0 < m <= 0x200_0000,
                            0 <= y < m,
                            sc == pow2((9 - z) as nat),
                            0 <= vx < m,
                            vx == (x + dx) % (m as int),
                            vy == y + dy,
                            0 <= vy <= m + 20,
                            vx * sc + sc <= 512,
                            0 <= u < sc,
                            bx == vx * sc + u,
                            0 <= v <= sc,
                            forall|i: int, j: int| 0 <= i < j < r@.len() ==> r@[i] != r@[j],
                            forall|i: int|
                                0 <= i < r@.len() ==> (#[trigger] r@[i]).0 < MAP_WIDTH
                                    && r@[i].1 < MAP_WIDTH && viewport_covers(
                                    x as int,
                                    y as int,
                                    z as int,
                                    width as int,
                                    height as int,
                                    r@[i].0 as int,
                                    r@[i].1 as int,
                                ),
                            forall|bx2: int, by2: int|
                                tile_listed(r_at_u, bx2, by2) ==> tile_listed(r@, bx2, by2),
                            forall|byp: int|
                                vy * sc <= byp < vy * sc + v && byp < 512 ==> tile_listed(
                                    r@,
                                    bx as int,
                                    byp,
                                ),
                        decreases sc - v,
                    {
                        let ghost r_at_v = r@;
                        proof {
                            assert(vy * sc + v >= 0) by (nonlinear_arith)
                                requires
                                    vy >= 0,
                                    sc >= 1,
                                    v >= 0,
                            ;
                            assert(vy * sc <= (0x200_0000 + 20) * 512) by (nonlinear_arith)
                                requires
                                    0 <= vy <= 0x200_0000 + 20,
                                    1 <= sc <= 512,
                            ;
                        }
                        let byv = vy * sc + v;
                        if byv < 512 {
                            proof {
                                assert(tile_of_view(
                                    x as int,
                                    y as int,
                                    z as int,
                                    dx as int,
                                    dy as int,
                                    bx as int,
                                    byv as int,
                                ));
                            }
                            push_unique(&mut r, bx as u16, byv as u16, Ghost((
                                x as int,
                                y as int,
                                z as int,
                                width as int,
                                height as int,
                            )));
                        }
                        proof {
                            assert forall|byp: int|
                                vy * sc <= byp < vy * sc + (v + 1) && byp < 512 implies tile_listed(
                                r@,
                                bx as int,
                                byp,
                            ) by {
                                if byp == vy * sc + v {
                                    assert(byv < 512);
                                    assert(tile_listed(r@, bx as int, byv as int));
                                } else {
                                    assert(tile_listed(r_at_v, bx as int, byp));
                                }
                            }
                        }
                        v += 1;
                    }
                    proof {
                        assert forall|bxp: int, byp: int|
                            vx * sc <= bxp < vx * sc + (u + 1) && vy * sc <= byp < vy * sc + sc
                                && byp < 512 implies tile_listed(r@, bxp, byp) by {
                            if bxp == vx * sc + u {
                                assert(tile_listed(r@, bx as int, byp));
                            } else {
                                assert(tile_listed(r_at_u, bxp, byp));
                            }
                        }
                    }
                    u += 1;
                }
                proof {
                    assert forall|bx2: int, by2: int, dxp: int|
                        0 <= dxp < dx + 1 && #[trigger] tile_of_view(
                            x as int,
                            y as int,
                            z as int,
                            dxp,
                            dy as int,
                            bx2,
                            by2,
                        ) implies tile_listed(r@, bx2, by2) by {
                        if dxp == dx {
                            assert(vx * sc <= bx2 < vx * sc + sc && vy * sc <= by2 < vy * sc + sc
                                && by2 < 512);
                        } else {
                            assert(tile_listed(r_at_dx, bx2, by2));
                        }
                    }
                }
            }
            proof {
                assert forall|bx2: int, by2: int, dxp: int, dyp: int|
                    0 <= dxp < width && 0 <= dyp < dy && #[trigger] tile_of_view(
                        x as int,
                        y as int,
                        z as int,
                        dxp,
                        dyp,
                        bx2,
                        by2,
                    ) implies tile_listed(r@, bx2, by2) by {
                    assert(tile_listed(r_at_dx, bx2, by2));
                }
            }
            dx += 1;
        }
        proof {
            let ghost r_row = r@;
            assert forall|bx2: int, by2: int, dxp: int, dyp: int|
                0 <= dxp < width && 0 <= dyp < dy + 1 && #[trigger] tile_of_view(
                    x as int,
                    y as int,
                    z as int,
                    dxp,
                    dyp,
                    bx2,
                    by2,
                ) implies tile_listed(r@, bx2, by2) by {
                if dyp == dy {
                } else {
                }
            }
        }
        dy += 1;
    }
    proof {
        assert forall|bx: int, by: int| #[trigger] viewport_covers(
            x as int,
            y as int,
            z as int,
            width as int,
            height as int,
            bx,
            by,
        ) implies tile_listed(r@, bx, by) by {
            let (dxp, dyp) = choose|dxp: int, dyp: int|
                0 <= dxp < width && 0 <= dyp < height && tile_of_view(
                    x as int,
                    y as int,
                    z as int,
                    dxp,
                    dyp,
                    bx,
                    by,
                );
        }
    }
    r
}

/// Whether the list holds the pair `(x, y)`.
fn list_has_pair(list: &Vec<(u16, u16)>, x: u16, y: u16) -> (r: bool)
    ensures
        r == tile_listed(list@, x as int, y as int),
{
    let n = list.len();
    let mut i: usize = 0;
    while i < n
        invariant
            n == list@.len(),
            i <= n,
            forall|j: int| 0 <= j < i ==> list@[j] != (x, y),
        decreases n - i,
    {
        let e = list[i];
        if e.0 == x && e.1 == y {
            proof {
                assert(list@[i as int] == (((x as int) as u16), ((y as int) as u16)));
            }
            return true;
        }
        i += 1;
    }
    proof {
        if tile_listed(list@, x as int, y as int) {
            let j = choose|j: int|
                0 <= j < list@.len() && list@[j] == (((x as int) as u16), ((y as int) as u16));
            assert(false);
        }
    }
    false
}

/// Append a covered tile unless it is already listed. Everything listed
/// before stays listed, and `(bx, by)` is listed afterwards.
fn push_unique(r: &mut Vec<(u16, u16)>, bx: u16, by: u16, Ghost(vp): Ghost<(int, int, int, int, int)>)
    requires
        bx < MAP_WIDTH,
        by < MAP_WIDTH,
        viewport_covers(vp.0, vp.1, vp.2, vp.3, vp.4, bx as int, by as int),
        forall|i: int, j: int| 0 <= i < j < old(r)@.len() ==> old(r)@[i] != old(r)@[j],
        forall|i: int|
            0 <= i < old(r)@.len() ==> (#[trigger] old(r)@[i]).0 < MAP_WIDTH && old(r)@[i].1
                < MAP_WIDTH && viewport_covers(
                vp.0,
                vp.1,
                vp.2,
                vp.3,
                vp.4,
                old(r)@[i].0 as int,
                old(r)@[i].1 as int,
            ),
    ensures
        forall|i: int, j: int| 0 <= i < j < final(r)@.len() ==> final(r)@[i] != final(r)@[j],
        forall|i: int|
            0 <= i < final(r)@.len() ==> (#[trigger] final(r)@[i]).0 < MAP_WIDTH
                && final(r)@[i].1 < MAP_WIDTH && viewport_covers(
                vp.0,
                vp.1,
                vp.2,
                vp.3,
                vp.4,
                final(r)@[i].0 as int,
                final(r)@[i].1 as int,
            ),
        forall|bx2: int, by2: int|
            #[trigger] tile_listed(old(r)@, bx2, by2) ==> tile_listed(final(r)@, bx2, by2),
        tile_listed(final(r)@, bx as int, by as int),
{
    let ghost orig = r@;
    let n = r.len();
    let mut found = false;
    let mut i: usize = 0;
    while i < n
        invariant
            n == r@.len(),
            r@ == orig,
            i <= n,
            !found ==> forall|j: int| 0 <= j < i ==> r@[j] != (bx, by),
            found ==> exists|j: int| 0 <= j < n && r@[j] == (bx, by),
        decreases n - i,
    {
        let e = r[i];
        if e.0 == bx && e.1 == by {
            proof {
                assert(r@[i as int] == (bx, by));
            }
            found = true;
        }
        i += 1;
    }
    if found {
        proof {
            let j = choose|j: int| 0 <= j < n && r@[j] == (bx, by);
            assert(r@[j] == (((bx as int) as u16), ((by as int) as u16)));
        }
        return ;
    }
    r.push((bx, by));
    proof {
        assert forall|a: int, c: int| 0 <= a < c < r@.len() implies r@[a] != r@[c] by {
            if c == r@.len() - 1 {
                assert(r@[a] == orig[a]);
                assert(r@[c] == (bx, by));
            } else {
                assert(r@[a] == orig[a] && r@[c] == orig[c]);
            }
        }
        assert forall|a: int| 0 <= a < r@.len() implies (#[trigger] r@[a]).0 < MAP_WIDTH
            && r@[a].1 < MAP_WIDTH && viewport_covers(
            vp.0,
            vp.1,
            vp.2,
            vp.3,
            vp.4,
            r@[a].0 as int,
            r@[a].1 as int,
        ) by {
            if a < orig.len() {
                assert(r@[a] == orig[a]);
            } else {
                assert(r@[a] == (bx, by));
            }
        }
        assert forall|bx2: int, by2: int| #[trigger] tile_listed(orig, bx2, by2) implies tile_listed(
            r@,
            bx2,
            by2,
        ) by {
            let a = choose|a: int| 0 <= a < orig.len() && orig[a] == ((bx2 as u16), (by2 as u16));
            assert(r@[a] == orig[a]);
        }
        assert(r@[r@.len() - 1] == (((bx as int) as u16), ((by as int) as u16)));
    }
}


/// Columns that agree modulo the world width shade the same cells: the frame
/// of a viewport at `x1` equals the frame at `x2` whenever `x1` and `x2` wrap
/// to the same view tile, whatever `x` the buffers echo back.
pub proof fn lemma_wrap_around_equivalent(
    m: Map<int, Seq<bool>>,
    x1: int,
    x2: int,
    y: int,
    z: int,
    bsp: int,
    width: int,
    idx: int,
)
    requires
        0 <= z <= 25,
        x1 % (pow2(z as nat) as int) == x2 % (pow2(z as nat) as int),
        0 < width,
        0 <= idx,
    ensures
        cell_pixels(
            m,
            (x1 + idx % width) % (pow2(z as nat) as int),
            y + idx / width,
            z,
            bsp,
        ) == cell_pixels(
            m,
            (x2 + idx % width) % (pow2(z as nat) as int),
            y + idx / width,
            z,
            bsp,
        ),
{
    let w = pow2(z as nat) as int;
    vstd::arithmetic::power2::lemma_pow2_pos(z as nat);
    let a = idx % width;
    vstd::arithmetic::div_mod::lemma_fundamental_div_mod(x1, w);
    vstd::arithmetic::div_mod::lemma_fundamental_div_mod(x2, w);
    vstd::arithmetic::div_mod::lemma_fundamental_div_mod((x1 % w) + a, w);
    let q1 = x1 / w;
    let q2 = x2 / w;
    let k = ((x1 % w) + a) / w;
    let r = ((x1 % w) + a) % w;
    assert(x1 + a == (q1 + k) * w + r) by (nonlinear_arith)
        requires
            x1 == w * q1 + (x1 % w),
            (x1 % w) + a == w * k + r,
    ;
    assert(x2 + a == (q2 + k) * w + r) by (nonlinear_arith)
        requires
            x2 == w * q2 + (x2 % w),
            x1 % w == x2 % w,
            (x1 % w) + a == w * k + r,
    ;
    vstd::arithmetic::div_mod::lemma_fundamental_div_mod_converse(x1 + a, w, q1 + k, r);
    vstd::arithmetic::div_mod::lemma_fundamental_div_mod_converse(x2 + a, w, q2 + k, r);
}

/// Two renderers whose contents agree produce byte-identical frames: every
/// cell of a rendered viewport is a function of the content and the request
/// alone, so a lazy renderer and an eager one showing the same journeys
/// cannot be told apart by any frame.
pub proof fn lemma_frames_agree(
    b1: TileBuffer,
    b2: TileBuffer,
    m: Map<int, Seq<bool>>,
    x: int,
    y: int,
    z: int,
    width: int,
    height: int,
    bsp: int,
)
    requires
        b1.data_view().len() == width * height,
        b2.data_view().len() == width * height,
        forall|idx: int|
            0 <= idx < width * height ==> #[trigger] b1.data_view()[idx] == cell_pixels(
                m,
                (x + idx % width) % (pow2(z as nat) as int),
                y + idx / width,
                z,
                bsp,
            ),
        forall|idx: int|
            0 <= idx < width * height ==> #[trigger] b2.data_view()[idx] == cell_pixels(
                m,
                (x + idx % width) % (pow2(z as nat) as int),
                y + idx / width,
                z,
                bsp,
            ),
    ensures
        b1.data_view() == b2.data_view(),
{
    assert(b1.data_view() =~= b2.data_view());
}


/// Every character the hex rendering emits is an ASCII hex digit.
proof fn lemma_hex_seq_chars(v: int)
    requires
        v >= 0,
    ensures
        hex_seq(v).len() >= 1,
        vstd::utf8::is_ascii_chars(hex_seq(v)),
        forall|i: int|
            0 <= i < hex_seq(v).len() ==> hex_digit_val(#[trigger] hex_seq(v)[i] as u8) < 16
                && hex_seq(v)[i] != '"' && hex_seq(v)[i] != '+',
    decreases v,
{
    if v < 16 {
        assert(hex_seq(v) =~= seq![hex_char(v)]);
    } else {
        lemma_hex_seq_chars(v / 16);
        assert forall|i: int| 0 <= i < hex_seq(v).len() implies hex_digit_val(
            #[trigger] hex_seq(v)[i] as u8,
        ) < 16 && hex_seq(v)[i] != '"' && hex_seq(v)[i] != '+' by {
            if i < hex_seq(v).len() - 1 {
                assert(hex_seq(v)[i] == hex_seq(v / 16)[i]);
            } else {
                assert(hex_seq(v)[i] == hex_char(v % 16));
            }
        }
        assert forall|i: int| 0 <= i < hex_seq(v).len() implies '\0' <= #[trigger] hex_seq(
            v,
        )[i] <= '\u{7f}' by {
            if i < hex_seq(v).len() - 1 {
                assert(hex_seq(v)[i] == hex_seq(v / 16)[i]);
            } else {
                assert(hex_seq(v)[i] == hex_char(v % 16));
            }
        }
    }
}

/// Reading the emitted hex digits left to right rebuilds the value.
#[verifier::rlimit(50)]
proof fn lemma_hex_seq_value(v: int, b: Seq<u8>)
    requires
        v >= 0,
        b.len() == hex_seq(v).len(),
        forall|i: int| 0 <= i < b.len() ==> b[i] == #[trigger] hex_seq(v)[i] as u8,
    ensures
        hex_prefix_val(b, 0, b.len() as int) == v,
    decreases v,
{
    if v < 16 {
        assert(hex_seq(v) =~= seq![hex_char(v)]);
        assert(hex_prefix_val(b, 0, 0) == 0);
        assert(hex_prefix_val(b, 0, 1) == hex_prefix_val(b, 0, 0) * 16 + hex_digit_val(b[0]));
        assert(hex_seq(v)[0] == hex_char(v));
        assert(b[0] == hex_char(v) as u8);
        assert(hex_digit_val(hex_char(v) as u8) == v);
    } else {
        let pre = b.take(b.len() - 1);
        assert(pre.len() == hex_seq(v / 16).len());
        assert forall|i: int| 0 <= i < pre.len() implies pre[i] == #[trigger] hex_seq(v / 16)[i]
            as u8 by {
            assert(hex_seq(v)[i] == hex_seq(v / 16)[i]);
            assert(pre[i] == b[i]);
        }
        lemma_hex_seq_value(v / 16, pre);
        lemma_hex_prefix_agree(b, pre, pre.len() as int);
        assert(hex_prefix_val(b, 0, b.len() as int) == hex_prefix_val(b, 0, b.len() - 1) * 16
            + hex_digit_val(b[b.len() - 1]));
        assert(hex_seq(v)[b.len() - 1] == hex_char(v % 16));
        assert(b[b.len() - 1] == hex_char(v % 16) as u8);
        assert(hex_digit_val(hex_char(v % 16) as u8) == v % 16);
        vstd::arithmetic::div_mod::lemma_fundamental_div_mod(v, 16);
    }
}

/// A digit-span value reads only the bytes inside the span.
proof fn lemma_hex_prefix_agree(b1: Seq<u8>, b2: Seq<u8>, cnt: int)
    requires
        cnt <= b1.len(),
        cnt <= b2.len(),
        forall|i: int| 0 <= i < cnt ==> b1[i] == b2[i],
    ensures
        hex_prefix_val(b1, 0, cnt) == hex_prefix_val(b2, 0, cnt),
    decreases cnt,
{
    if cnt > 0 {
        lemma_hex_prefix_agree(b1, b2, cnt - 1);
    }
}

/// Printing a version and parsing it back yields the same version: what
/// `get_version_string` hands out, `parse_version_string` accepts, so a
/// client echoing the string is recognized as current.
pub proof fn lemma_version_string_round_trip(v: u64)
    ensures
        spec_parse_version(vstd::utf8::encode_utf8(hex_seq(v as int))) == Some(v),
{
    let chars = hex_seq(v as int);
    lemma_hex_seq_chars(v as int);
    vstd::utf8::is_ascii_chars_encode_utf8(chars);
    let b = vstd::utf8::encode_utf8(chars);
    assert(b.len() == chars.len());
    assert forall|i: int| 0 <= i < b.len() implies b[i] == #[trigger] chars[i] as u8 by {}
    assert(b[0] != '"' as u8) by {
        assert(chars[0] != '"' && chars[0] != '+');
        assert('\0' <= chars[0] <= '\u{7f}');
    }
    assert(skip_quotes(b, 0) == 0);
    assert(b[b.len() - 1] != '"' as u8);
    assert(skip_quotes_back(b, b.len() as int, 0) == b.len());
    assert(b[0] != '+' as u8);
    assert forall|j: int| 0 <= j < b.len() implies hex_digit_val(b[j]) < 16 by {
        assert(b[j] == chars[j] as u8);
    }
    lemma_hex_seq_value(v as int, b);
    assert(hex_prefix_val(b, 0, b.len() as int) == v);
}

/// The version counter after one bump: adds one, wrapping at the 64-bit limit.
pub open spec fn wrapping_inc(v: u64) -> u64 {
    if v == 0xFFFF_FFFF_FFFF_FFFF {
        0
    } else {
        (v + 1) as u64
    }
}

/// The working map after one lazy lookup of `key` (`None`: no lookup ran).
pub open spec fn spec_load_tile(
    base: Map<int, Seq<bool>>,
    lazy: Option<Map<int, Seq<bool>>>,
    key: Option<int>,
) -> Map<int, Seq<bool>> {
    match (lazy, key) {
        (Some(src), Some(k)) => if src.contains_key(k) {
            crate::journey_bitmap::merge_entry(base, k, src[k])
        } else {
            base
        },
        _ => base,
    }
}


} // verus!
