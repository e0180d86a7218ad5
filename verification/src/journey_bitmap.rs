use vstd::prelude::*;

verus! {

/// The world at the bitmap zoom level is a `MAP_WIDTH x MAP_WIDTH` grid of tiles.
pub const MAP_WIDTH: u32 = 512;

/// Each tile is a `TILE_WIDTH x TILE_WIDTH` raster of presence bits.
pub const TILE_WIDTH: u32 = 64;

/// Number of presence bits in one tile.
pub const TILE_BITS: u32 = 4096;

/// Width of the whole world in bitmap pixels: `MAP_WIDTH * TILE_WIDTH`.
pub const WORLD_PIXELS: u32 = 32768;

/// Largest tile key plus one: `MAP_WIDTH * MAP_WIDTH`.
pub const MAX_TILE_KEY: u32 = 262144;

/// A single bitmap tile: a square raster of presence bits, stored row by row.
#[derive(Debug)]
pub struct Tile {
    bits: Vec<bool>,
}

/// The presence bits of an empty tile.
pub open spec fn empty_tile_bits() -> Seq<bool> {
    Seq::new(TILE_BITS as nat, |i: int| false)
}

/// Pointwise logical OR of two tiles' presence bits.
pub open spec fn or_bits(a: Seq<bool>, b: Seq<bool>) -> Seq<bool> {
    Seq::new(TILE_BITS as nat, |i: int| a[i] || b[i])
}

impl Tile {
    pub closed spec fn view(&self) -> Seq<bool> {
        self.bits@
    }

    /// A tile is a complete raster: exactly `TILE_BITS` bits.
    pub open spec fn wf(&self) -> bool {
        self@.len() == TILE_BITS
    }

    pub fn new() -> (t: Tile)
        ensures
            t.wf(),
            t@ == empty_tile_bits(),
    {
        let t = Tile { bits: vec![false; TILE_BITS as usize] };
        proof {
            assert(t.bits@ =~= empty_tile_bits());
        }
        t
    }

    /// Read the presence bit at tile-relative pixel `(px, py)`.
    pub fn get_pixel(&self, px: u32, py: u32) -> (r: bool)
        requires
            self.wf(),
            px < TILE_WIDTH,
            py < TILE_WIDTH,
        ensures
            r == self@[py * TILE_WIDTH + px],
    {
        self.bits[(py * TILE_WIDTH + px) as usize]
    }

    /// Set the presence bit at tile-relative pixel `(px, py)`.
    pub fn set_pixel(&mut self, px: u32, py: u32)
        requires
            old(self).wf(),
            px < TILE_WIDTH,
            py < TILE_WIDTH,
        ensures
            final(self).wf(),
            final(self)@ == old(self)@.update(py * TILE_WIDTH + px, true),
    {
        let idx = (py * TILE_WIDTH + px) as usize;
        self.bits[idx] = true;
    }

    /// Logical OR of `other`'s presence bits into this tile.
    pub fn merge_from(&mut self, other: &Tile)
        requires
            old(self).wf(),
            other.wf(),
        ensures
            final(self).wf(),
            final(self)@ == or_bits(old(self)@, other@),
    {
        let mut out: Vec<bool> = Vec::new();
        let mut i: usize = 0;
        while i < TILE_BITS as usize
            invariant
                self.wf(),
                other.wf(),
                i <= TILE_BITS,
                out@ == Seq::new(i as nat, |j: int| self@[j] || other@[j]),
            decreases TILE_BITS - i,
        {
            let v = self.bits[i] || other.bits[i];
            out.push(v);
            proof {
                assert(out@ =~= Seq::new((i + 1) as nat, |j: int| self@[j] || other@[j]));
            }
            i += 1;
        }
        self.bits = out;
        proof {
            assert(self.bits@ =~= or_bits(old(self)@, other@));
        }
    }

    /// Make a tile with the same raster.
    pub fn duplicate(&self) -> (t: Tile)
        requires
            self.wf(),
        ensures
            t.wf(),
            t@ == self@,
    {
        let mut bits: Vec<bool> = Vec::new();
        let mut i: usize = 0;
        while i < TILE_BITS as usize
            invariant
                self.wf(),
                i <= TILE_BITS,
                bits@ == self@.take(i as int),
            decreases TILE_BITS - i,
        {
            bits.push(self.bits[i]);
            proof {
                assert(bits@ =~= self@.take(i + 1));
            }
            i += 1;
        }
        proof {
            assert(self@.take(TILE_BITS as int) =~= self@);
        }
        Tile { bits }
    }

    /// Read one presence bit by its raster index (for the codec in this crate).
    pub(crate) fn bit_at(&self, j: usize) -> (r: bool)
        requires
            self.wf(),
            j < TILE_BITS,
        ensures
            r == self@[j as int],
    {
        self.bits[j]
    }

    /// Build a tile from a complete raster (for the codec in this crate).
    pub(crate) fn from_bits(bits: Vec<bool>) -> (t: Tile)
        requires
            bits@.len() == TILE_BITS,
        ensures
            t.wf(),
            t@ == bits@,
    {
        Tile { bits }
    }

    /// Number of set bits in this tile's raster.
    pub fn count_pixels(&self) -> (n: u64)
        requires
            self.wf(),
        ensures
            n == count_true(self@),
    {
        let mut i: usize = 0;
        let mut n: u64 = 0;
        while i < TILE_BITS as usize
            invariant
                self.wf(),
                i <= TILE_BITS,
                n == count_true(self@.take(i as int)),
                n <= i,
            decreases TILE_BITS - i,
        {
            proof {
                assert(self@.take(i + 1).drop_last() =~= self@.take(i as int));
                assert(self@.take(i + 1).last() == self@[i as int]);
            }
            if self.bits[i] {
                n += 1;
            }
            i += 1;
        }
        proof {
            assert(self@.take(TILE_BITS as int) =~= self@);
        }
        n
    }

    /// Structural equality of two tiles' rasters.
    pub fn same_bits(&self, other: &Tile) -> (r: bool)
        requires
            self.wf(),
            other.wf(),
        ensures
            r == (self@ == other@),
    {
        let mut i: usize = 0;
        let mut same = true;
        while i < TILE_BITS as usize
            invariant
                self.wf(),
                other.wf(),
                i <= TILE_BITS,
                same == (forall|j: int| 0 <= j < i ==> self@[j] == other@[j]),
            decreases TILE_BITS - i,
        {
            if self.bits[i] != other.bits[i] {
                same = false;
            }
            i += 1;
        }
        proof {
            if same {
                assert(self@ =~= other@);
            }
        }
        same
    }
}

/// The tile map described by an association list of `(key, tile)` entries,
/// later entries taking precedence.
pub open spec fn assoc_map(s: Seq<(u32, Tile)>) -> Map<int, Seq<bool>>
    decreases s.len(),
{
    if s.len() == 0 {
        Map::empty()
    } else {
        assoc_map(s.drop_last()).insert(s.last().0 as int, s.last().1@)
    }
}

/// Whether some entry of the association list carries the key.
pub open spec fn key_in(s: Seq<(u32, Tile)>, k: int) -> bool {
    exists|i: int| 0 <= i < s.len() && s[i].0 == k
}

/// Entry keys strictly increase along the list.
pub open spec fn keys_sorted(s: Seq<(u32, Tile)>) -> bool {
    forall|i: int, j: int| 0 <= i < j < s.len() ==> s[i].0 < s[j].0
}

/// Every entry holds a valid tile under a valid key.
pub open spec fn entries_wf(s: Seq<(u32, Tile)>) -> bool {
    forall|i: int| 0 <= i < s.len() ==> (#[trigger] s[i]).0 < MAX_TILE_KEY && s[i].1.wf()
}

pub proof fn lemma_assoc_dom(s: Seq<(u32, Tile)>)
    ensures
        forall|k: int| #[trigger] assoc_map(s).contains_key(k) <==> key_in(s, k),
    decreases s.len(),
{
    if s.len() > 0 {
        let dl = s.drop_last();
        lemma_assoc_dom(dl);
        assert forall|k: int| #[trigger] assoc_map(s).contains_key(k) <==> key_in(s, k) by {
            if assoc_map(s).contains_key(k) {
                if k == s.last().0 {
                    assert(s[s.len() - 1].0 == k);
                    assert(key_in(s, k));
                } else {
                    assert(assoc_map(dl).contains_key(k));
                    assert(key_in(dl, k));
                    let i = choose|i: int| 0 <= i < dl.len() && dl[i].0 == k;
                    assert(dl[i] == s[i]);
                    assert(s[i].0 == k);
                    assert(key_in(s, k));
                }
            }
            if key_in(s, k) {
                let i = choose|i: int| 0 <= i < s.len() && s[i].0 == k;
                if i < s.len() - 1 {
                    assert(dl[i] == s[i]);
                    assert(key_in(dl, k));
                    assert(assoc_map(dl).contains_key(k));
                } else {
                    assert(k == s.last().0);
                }
                assert(assoc_map(s).contains_key(k));
            }
        }
    }
}

pub proof fn lemma_assoc_get(s: Seq<(u32, Tile)>, i: int)
    requires
        keys_sorted(s),
        0 <= i < s.len(),
    ensures
        assoc_map(s).contains_key(s[i].0 as int),
        assoc_map(s)[s[i].0 as int] == s[i].1@,
    decreases s.len(),
{
    if i < s.len() - 1 {
        lemma_assoc_get(s.drop_last(), i);
        assert(s.drop_last()[i] == s[i]);
    }
}

pub proof fn lemma_assoc_update(s: Seq<(u32, Tile)>, i: int, t: Tile)
    requires
        keys_sorted(s),
        0 <= i < s.len(),
    ensures
        assoc_map(s.update(i, (s[i].0, t))) == assoc_map(s).insert(s[i].0 as int, t@),
    decreases s.len(),
{
    let s2 = s.update(i, (s[i].0, t));
    if i == s.len() - 1 {
        assert(s2.drop_last() =~= s.drop_last());
        assert(assoc_map(s2) =~= assoc_map(s).insert(s[i].0 as int, t@));
    } else {
        lemma_assoc_update(s.drop_last(), i, t);
        assert(s2.drop_last() =~= s.drop_last().update(i, (s[i].0, t)));
        assert(s2.last() == s.last());
        assert(s[i].0 < s.last().0);
        assert(assoc_map(s2) =~= assoc_map(s).insert(s[i].0 as int, t@));
    }
}

pub proof fn lemma_assoc_insert(s: Seq<(u32, Tile)>, pos: int, k: u32, t: Tile)
    requires
        0 <= pos <= s.len(),
        !key_in(s, k as int),
    ensures
        assoc_map(s.insert(pos, (k, t))) == assoc_map(s).insert(k as int, t@),
    decreases s.len(),
{
    let s2 = s.insert(pos, (k, t));
    if pos == s.len() {
        assert(s2.drop_last() =~= s);
        assert(s2.last() == (k, t));
    } else {
        assert(s.len() > 0);
        assert(forall|i: int| 0 <= i < s.drop_last().len() ==> s.drop_last()[i] == s[i]);
        lemma_assoc_insert(s.drop_last(), pos, k, t);
        assert(s2.drop_last() =~= s.drop_last().insert(pos, (k, t)));
        assert(s2.last() == s.last());
        assert(s[s.len() - 1].0 != k);
        assert(assoc_map(s2) =~= assoc_map(s).insert(k as int, t@));
    }
}

/// Tile key of the tile holding world pixel `(wx, wy)`.
pub open spec fn pixel_tile_key(wx: int, wy: int) -> int {
    (wx / (TILE_WIDTH as int)) * (MAP_WIDTH as int) + wy / (TILE_WIDTH as int)
}

/// Bit index, within its tile, of world pixel `(wx, wy)`.
pub open spec fn pixel_bit_index(wx: int, wy: int) -> int {
    (wy % (TILE_WIDTH as int)) * (TILE_WIDTH as int) + wx % (TILE_WIDTH as int)
}

/// The tile map after lighting world pixel `(wx, wy)`.
pub open spec fn bm_set_pixel(m: Map<int, Seq<bool>>, wx: int, wy: int) -> Map<int, Seq<bool>> {
    let k = pixel_tile_key(wx, wy);
    let j = pixel_bit_index(wx, wy);
    let base = if m.contains_key(k) {
        m[k]
    } else {
        empty_tile_bits()
    };
    m.insert(k, base.update(j, true))
}

/// The tile map after folding one `(key, bits)` entry in by logical OR.
pub open spec fn merge_entry(m: Map<int, Seq<bool>>, k: int, t: Seq<bool>) -> Map<
    int,
    Seq<bool>,
> {
    if m.contains_key(k) {
        m.insert(k, or_bits(m[k], t))
    } else {
        m.insert(k, t)
    }
}

/// Pointwise logical OR of two tile maps.
pub open spec fn merge_bm(a: Map<int, Seq<bool>>, b: Map<int, Seq<bool>>) -> Map<int, Seq<bool>> {
    Map::new(
        |k: int| a.contains_key(k) || b.contains_key(k),
        |k: int|
            if a.contains_key(k) && b.contains_key(k) {
                or_bits(a[k], b[k])
            } else if a.contains_key(k) {
                a[k]
            } else {
                b[k]
            },
    )
}

/// The tile map after folding in the first `cnt` entries of an association list.
pub open spec fn merge_upto(m: Map<int, Seq<bool>>, s: Seq<(u32, Tile)>, cnt: int) -> Map<
    int,
    Seq<bool>,
>
    decreases cnt,
{
    if cnt <= 0 {
        m
    } else {
        merge_entry(merge_upto(m, s, cnt - 1), s[cnt - 1].0 as int, s[cnt - 1].1@)
    }
}

/// Folding an association list entry by entry builds the pointwise OR of the two maps.
pub proof fn lemma_merge_upto_full(m: Map<int, Seq<bool>>, s: Seq<(u32, Tile)>)
    requires
        keys_sorted(s),
    ensures
        merge_upto(m, s, s.len() as int) == merge_bm(m, assoc_map(s)),
    decreases s.len(),
{
    if s.len() == 0 {
        assert(merge_upto(m, s, 0) =~= merge_bm(m, assoc_map(s)));
    } else {
        let dl = s.drop_last();
        let n = s.len() as int;
        lemma_merge_upto_prefix(m, s, dl, n - 1);
        lemma_merge_upto_full(m, dl);
        lemma_assoc_dom(dl);
        let k = s.last().0 as int;
        let t = s.last().1@;
        assert(!key_in(dl, k));
        assert(merge_upto(m, s, n) == merge_entry(merge_bm(m, assoc_map(dl)), k, t));
        assert(merge_entry(merge_bm(m, assoc_map(dl)), k, t) =~= merge_bm(
            m,
            assoc_map(dl).insert(k, t),
        ));
    }
}

/// `merge_upto` reads only the first `cnt` entries.
proof fn lemma_merge_upto_prefix(
    m: Map<int, Seq<bool>>,
    s1: Seq<(u32, Tile)>,
    s2: Seq<(u32, Tile)>,
    cnt: int,
)
    requires
        cnt <= s1.len(),
        cnt <= s2.len(),
        forall|i: int| 0 <= i < cnt ==> s1[i] == s2[i],
    ensures
        merge_upto(m, s1, cnt) == merge_upto(m, s2, cnt),
    decreases cnt,
{
    if cnt > 0 {
        lemma_merge_upto_prefix(m, s1, s2, cnt - 1);
    }
}


/// Number of unit steps a line's rasterization takes: the larger coordinate span.
pub open spec fn line_step_count(x0: int, y0: int, x1: int, y1: int) -> int {
    let dx = if x1 >= x0 {
        x1 - x0
    } else {
        x0 - x1
    };
    let dy = if y1 >= y0 {
        y1 - y0
    } else {
        y0 - y1
    };
    if dx >= dy {
        dx
    } else {
        dy
    }
}

/// Coordinate of the `i`-th of `n` evenly spaced samples between `a` and `b`.
pub open spec fn lerp(a: int, b: int, n: int, i: int) -> int {
    if n == 0 {
        a
    } else {
        (a * (n - i) + b * i) / n
    }
}

/// The tile map after lighting the first `cnt` sample pixels of the line.
pub open spec fn bm_line_upto(
    m: Map<int, Seq<bool>>,
    x0: int,
    y0: int,
    x1: int,
    y1: int,
    cnt: int,
) -> Map<int, Seq<bool>>
    decreases cnt,
{
    if cnt <= 0 {
        m
    } else {
        let n = line_step_count(x0, y0, x1, y1);
        bm_set_pixel(
            bm_line_upto(m, x0, y0, x1, y1, cnt - 1),
            lerp(x0, x1, n, cnt - 1),
            lerp(y0, y1, n, cnt - 1),
        )
    }
}

/// The tile map after drawing the whole line.
pub open spec fn bm_line(m: Map<int, Seq<bool>>, x0: int, y0: int, x1: int, y1: int) -> Map<
    int,
    Seq<bool>,
> {
    bm_line_upto(m, x0, y0, x1, y1, line_step_count(x0, y0, x1, y1) + 1)
}

/// Interpolate between two world coordinates without overflow.
fn lerp_exec(a: u32, b: u32, n: u32, i: u32) -> (r: u32)
    requires
        a < WORLD_PIXELS,
        b < WORLD_PIXELS,
        n < WORLD_PIXELS,
        i <= n,
    ensures
        r == lerp(a as int, b as int, n as int, i as int),
        r < WORLD_PIXELS,
{
    if n == 0 {
        a
    } else {
        proof {
            assert((a as u64) * ((n - i) as u64) + (b as u64) * (i as u64) < 0x8000_0000u64)
                by (nonlinear_arith)
                requires
                    a < WORLD_PIXELS,
                    b < WORLD_PIXELS,
                    0 < n < WORLD_PIXELS,
                    i <= n,
            ;
        }
        let num: u64 = (a as u64) * ((n - i) as u64) + (b as u64) * (i as u64);
        let q: u64 = num / (n as u64);
        proof {
            assert(num <= (WORLD_PIXELS - 1) as u64 * (n as u64) && q < WORLD_PIXELS && q == lerp(
                a as int,
                b as int,
                n as int,
                i as int,
            )) by (nonlinear_arith)
                requires
                    a < WORLD_PIXELS,
                    b < WORLD_PIXELS,
                    0 < n < WORLD_PIXELS,
                    i <= n,
                    num == (a as u64) * ((n - i) as u64) + (b as u64) * (i as u64),
                    q == num / (n as u64),
            ;
        }
        q as u32
    }
}

/// A sparse bitmap of the whole world: one tile per occupied position of the
/// `MAP_WIDTH x MAP_WIDTH` grid, stored as a key-sorted association list.
#[derive(Debug)]
pub struct JourneyBitmap {
    tiles: Vec<(u32, Tile)>,
}

impl JourneyBitmap {
    /// The abstract content: a map from tile key to that tile's presence bits.
    pub closed spec fn view(&self) -> Map<int, Seq<bool>> {
        assoc_map(self.tiles@)
    }

    pub closed spec fn wf(&self) -> bool {
        keys_sorted(self.tiles@) && entries_wf(self.tiles@)
    }

    pub fn new() -> (b: JourneyBitmap)
        ensures
            b.wf(),
            b@ == Map::<int, Seq<bool>>::empty(),
    {
        JourneyBitmap { tiles: Vec::new() }
    }

    /// Number of occupied tiles.
    pub fn num_tiles(&self) -> (n: usize)
        requires
            self.wf(),
        ensures
            n == self@.dom().len(),
    {
        proof {
            lemma_assoc_card(self.tiles@);
        }
        self.tiles.len()
    }

    /// Find the position a key occupies, or would occupy, in the sorted entry list.
    fn locate(&self, key: u32) -> (r: (usize, bool))
        requires
            self.wf(),
        ensures
            r.0 <= self.tiles@.len(),
            r.1 ==> r.0 < self.tiles@.len() && self.tiles@[r.0 as int].0 == key,
            !r.1 ==> !key_in(self.tiles@, key as int),
            forall|i: int| 0 <= i < r.0 ==> (#[trigger] self.tiles@[i]).0 < key,
            forall|i: int| r.0 <= i < self.tiles@.len() ==> (#[trigger] self.tiles@[i]).0 >= key,
    {
        let n = self.tiles.len();
        let mut pos: usize = 0;
        while pos < n && self.tiles[pos].0 < key
            invariant
                self.wf(),
                n == self.tiles@.len(),
                pos <= n,
                forall|i: int| 0 <= i < pos ==> (#[trigger] self.tiles@[i]).0 < key,
            decreases n - pos,
        {
            pos += 1;
        }
        let found = pos < n && self.tiles[pos].0 == key;
        proof {
            assert forall|i: int| pos <= i < self.tiles@.len() implies (#[trigger] self.tiles@[i]).0
                >= key by {
                if i > pos {
                    assert(self.tiles@[pos as int].0 < self.tiles@[i].0);
                }
            }
            if !found {
                assert forall|i: int| 0 <= i < self.tiles@.len() implies (#[trigger] self.tiles@[i]).0
                    != key by {}
            }
        }
        (pos, found)
    }

    /// Read access to the tile at grid position `(x, y)`, if occupied.
    pub fn get_tile(&self, x: u16, y: u16) -> (r: Option<&Tile>)
        requires
            self.wf(),
            x < MAP_WIDTH,
            y < MAP_WIDTH,
        ensures
            match r {
                Some(t) => self@.contains_key(x * MAP_WIDTH + y) && t.wf() && t@ == self@[x
                    * MAP_WIDTH + y],
                None => !self@.contains_key(x * MAP_WIDTH + y),
            },
    {
        let key: u32 = (x as u32) * MAP_WIDTH + (y as u32);
        let (pos, found) = self.locate(key);
        proof {
            lemma_assoc_dom(self.tiles@);
        }
        if found {
            proof {
                lemma_assoc_get(self.tiles@, pos as int);
            }
            Some(&self.tiles[pos].1)
        } else {
            None
        }
    }

    /// Insert a tile under `key`, or logical-OR it into the tile already there.
    pub(crate) fn insert_or_merge(&mut self, key: u32, tile: Tile)
        requires
            old(self).wf(),
            key < MAX_TILE_KEY,
            tile.wf(),
        ensures
            final(self).wf(),
            final(self)@ == merge_entry(old(self)@, key as int, tile@),
    {
        let (pos, found) = self.locate(key);
        proof {
            lemma_assoc_dom(self.tiles@);
        }
        if found {
            proof {
                lemma_assoc_get(self.tiles@, pos as int);
                assert(self.tiles@[pos as int].0 == key);
                assert(key_in(self.tiles@, key as int));
                assert(old(self)@.contains_key(key as int));
                assert(old(self)@[key as int] == self.tiles@[pos as int].1@);
            }
            let ghost before = self.tiles@;
            let mut entry = self.tiles.remove(pos);
            entry.1.merge_from(&tile);
            self.tiles.insert(pos, entry);
            proof {
                assert(self.tiles@ =~= before.update(pos as int, (key, entry.1)));
                lemma_assoc_update(before, pos as int, entry.1);
                assert(entry.1@ == or_bits(old(self)@[key as int], tile@));
                assert(final(self)@ == old(self)@.insert(key as int, entry.1@));
                lemma_sorted_after_update(before, pos as int, key, entry.1);
            }
        } else {
            proof {
                assert(!old(self)@.contains_key(key as int));
            }
            self.tiles.insert(pos, (key, tile));
            proof {
                lemma_assoc_insert(old(self).tiles@, pos as int, key, tile);
                assert forall|i: int| pos <= i < old(self).tiles@.len() implies (
                #[trigger] old(self).tiles@[i]).0 > key by {}
                lemma_sorted_after_fresh_insert(old(self).tiles@, pos as int, key, tile);
            }
        }
    }
    /// Light the single world pixel `(wx, wy)`.
    pub fn set_pixel_world(&mut self, wx: u32, wy: u32)
        requires
            old(self).wf(),
            wx < WORLD_PIXELS,
            wy < WORLD_PIXELS,
        ensures
            final(self).wf(),
            final(self)@ == bm_set_pixel(old(self)@, wx as int, wy as int),
    {
        let tx = wx / TILE_WIDTH;
        let ty = wy / TILE_WIDTH;
        let key: u32 = tx * MAP_WIDTH + ty;
        let px = wx % TILE_WIDTH;
        let py = wy % TILE_WIDTH;
        proof {
            assert(tx < MAP_WIDTH && ty < MAP_WIDTH) by (nonlinear_arith)
                requires
                    wx < WORLD_PIXELS,
                    wy < WORLD_PIXELS,
                    tx == wx / TILE_WIDTH,
                    ty == wy / TILE_WIDTH,
            ;
            assert(key == pixel_tile_key(wx as int, wy as int));
            assert(py * TILE_WIDTH + px == pixel_bit_index(wx as int, wy as int));
        }
        let (pos, found) = self.locate(key);
        proof {
            lemma_assoc_dom(self.tiles@);
        }
        if found {
            proof {
                lemma_assoc_get(self.tiles@, pos as int);
                assert(key_in(self.tiles@, key as int));
            }
            let ghost before = self.tiles@;
            let mut entry = self.tiles.remove(pos);
            entry.1.set_pixel(px, py);
            self.tiles.insert(pos, entry);
            proof {
                assert(self.tiles@ =~= before.update(pos as int, (key, entry.1)));
                lemma_assoc_update(before, pos as int, entry.1);
                lemma_sorted_after_update(before, pos as int, key, entry.1);
            }
        } else {
            let mut tile = Tile::new();
            tile.set_pixel(px, py);
            self.tiles.insert(pos, (key, tile));
            proof {
                lemma_assoc_insert(old(self).tiles@, pos as int, key, tile);
                assert forall|i: int| pos <= i < old(self).tiles@.len() implies (
                #[trigger] old(self).tiles@[i]).0 > key by {}
                lemma_sorted_after_fresh_insert(old(self).tiles@, pos as int, key, tile);
            }
        }
    }

    /// Draw a straight line of lit pixels between two world-pixel endpoints.
    /// Equal endpoints light the single pixel they name.
    pub fn add_line(&mut self, x0: u32, y0: u32, x1: u32, y1: u32)
        requires
            old(self).wf(),
            x0 < WORLD_PIXELS,
            y0 < WORLD_PIXELS,
            x1 < WORLD_PIXELS,
            y1 < WORLD_PIXELS,
        ensures
            final(self).wf(),
            final(self)@ == bm_line(old(self)@, x0 as int, y0 as int, x1 as int, y1 as int),
    {
        let dx = if x1 >= x0 {
            x1 - x0
        } else {
            x0 - x1
        };
        let dy = if y1 >= y0 {
            y1 - y0
        } else {
            y0 - y1
        };
        let n = if dx >= dy {
            dx
        } else {
            dy
        };
        proof {
            assert(n == line_step_count(x0 as int, y0 as int, x1 as int, y1 as int));
        }
        let mut i: u32 = 0;
        while i <= n
            invariant
                self.wf(),
                x0 < WORLD_PIXELS,
                y0 < WORLD_PIXELS,
                x1 < WORLD_PIXELS,
                y1 < WORLD_PIXELS,
                n == line_step_count(x0 as int, y0 as int, x1 as int, y1 as int),
                i <= n + 1,
                self@ == bm_line_upto(
                    old(self)@,
                    x0 as int,
                    y0 as int,
                    x1 as int,
                    y1 as int,
                    i as int,
                ),
            decreases n + 1 - i,
        {
            let px = lerp_exec(x0, x1, n, i);
            let py = lerp_exec(y0, y1, n, i);
            self.set_pixel_world(px, py);
            proof {
                reveal_with_fuel(bm_line_upto, 2);
                assert(self@ == bm_line_upto(
                    old(self)@,
                    x0 as int,
                    y0 as int,
                    x1 as int,
                    y1 as int,
                    i + 1,
                ));
            }
            i += 1;
        }
    }
    /// Fold every tile of `other` into this bitmap by logical OR.
    pub fn merge(&mut self, other: JourneyBitmap)
        requires
            old(self).wf(),
            other.wf(),
        ensures
            final(self).wf(),
            final(self)@ == merge_bm(old(self)@, other@),
    {
        let ghost oseq = other.tiles@;
        let mut rest = other.tiles;
        let total_entries = rest.len();
        let ghost total = total_entries as int;
        let mut i: usize = 0;
        while rest.len() > 0
            invariant
                self.wf(),
                keys_sorted(oseq),
                entries_wf(oseq),
                i + rest.len() == total,
                i <= total <= usize::MAX,
                total == oseq.len(),
                rest@ == oseq.skip(i as int),
                self@ == merge_upto(old(self)@, oseq, i as int),
            decreases rest.len(),
        {
            let entry = rest.remove(0);
            proof {
                assert(entry == oseq[i as int]);
                assert(rest@ =~= oseq.skip(i as int + 1));
            }
            self.insert_or_merge(entry.0, entry.1);
            i += 1;
        }
        proof {
            assert(i as int == total);
            lemma_merge_upto_full(old(self)@, oseq);
        }
    }

    /// Fold every tile of `other` into this bitmap by logical OR, reading
    /// `other` without consuming it.
    pub fn merge_ref(&mut self, other: &JourneyBitmap)
        requires
            old(self).wf(),
            other.wf(),
        ensures
            final(self).wf(),
            final(self)@ == merge_bm(old(self)@, other@),
    {
        let ghost oseq = other.entries();
        proof {
            other.lemma_entries();
        }
        let n = other.entry_count();
        let mut i: usize = 0;
        while i < n
            invariant
                self.wf(),
                other.wf(),
                oseq == other.entries(),
                keys_sorted(oseq),
                entries_wf(oseq),
                n == oseq.len(),
                i <= n,
                self@ == merge_upto(old(self)@, oseq, i as int),
            decreases n - i,
        {
            let entry = other.entry_at(i);
            proof {
                assert(oseq[i as int].1.wf());
            }
            let tile = entry.1.duplicate();
            self.insert_or_merge(entry.0, tile);
            i += 1;
        }
        proof {
            lemma_merge_upto_full(old(self)@, oseq);
        }
    }

    /// Pointwise OR of tile maps is commutative.
    pub proof fn lemma_merge_bm_commutative(a: Map<int, Seq<bool>>, b: Map<int, Seq<bool>>)
        ensures
            merge_bm(a, b) == merge_bm(b, a),
    {
        assert forall|k: int| #[trigger] merge_bm(a, b).contains_key(k) implies merge_bm(a, b)[k]
            == merge_bm(b, a)[k] by {
            if a.contains_key(k) && b.contains_key(k) {
                assert(or_bits(a[k], b[k]) =~= or_bits(b[k], a[k]));
            }
        }
        assert(merge_bm(a, b) =~= merge_bm(b, a));
    }

    /// Pointwise OR of tile maps is associative, over complete rasters.
    pub proof fn lemma_merge_bm_associative(
        a: Map<int, Seq<bool>>,
        b: Map<int, Seq<bool>>,
        c: Map<int, Seq<bool>>,
    )
        requires
            forall|k: int| #[trigger] a.contains_key(k) ==> a[k].len() == TILE_BITS,
            forall|k: int| #[trigger] b.contains_key(k) ==> b[k].len() == TILE_BITS,
            forall|k: int| #[trigger] c.contains_key(k) ==> c[k].len() == TILE_BITS,
        ensures
            merge_bm(merge_bm(a, b), c) == merge_bm(a, merge_bm(b, c)),
    {
        let l = merge_bm(merge_bm(a, b), c);
        let r = merge_bm(a, merge_bm(b, c));
        assert forall|k: int| #[trigger] l.contains_key(k) implies l[k] == r[k] by {
            assert(l[k] =~= r[k]);
        }
        assert(l =~= r);
    }

    /// Whether two bitmaps hold exactly the same tiles with the same bits.
    pub fn same_bitmap(&self, other: &JourneyBitmap) -> (r: bool)
        requires
            self.wf(),
            other.wf(),
        ensures
            r == (self@ == other@),
    {
        let n = self.tiles.len();
        if n != other.tiles.len() {
            proof {
                lemma_assoc_card(self.tiles@);
                lemma_assoc_card(other.tiles@);
            }
            return false;
        }
        let mut i: usize = 0;
        while i < n
            invariant
                self.wf(),
                other.wf(),
                n == self.tiles@.len(),
                n == other.tiles@.len(),
                i <= n,
                forall|j: int|
                    0 <= j < i ==> (#[trigger] self.tiles@[j]).0 == other.tiles@[j].0
                        && self.tiles@[j].1@ == other.tiles@[j].1@,
            decreases n - i,
        {
            if self.tiles[i].0 != other.tiles[i].0 {
                proof {
                    lemma_first_key_diff(self.tiles@, other.tiles@, i as int);
                }
                return false;
            }
            if !self.tiles[i].1.same_bits(&other.tiles[i].1) {
                proof {
                    lemma_assoc_get(self.tiles@, i as int);
                    lemma_assoc_get(other.tiles@, i as int);
                }
                return false;
            }
            i += 1;
        }
        proof {
            lemma_assoc_pointwise_eq(self.tiles@, other.tiles@);
        }
        true
    }

    /// Replace the tile at entry position `i`, keeping its key
    /// (for the renderer in this crate).
    pub(crate) fn replace_tile_at(&mut self, i: usize, t: Tile)
        requires
            old(self).wf(),
            i < old(self).entries().len(),
            t.wf(),
        ensures
            final(self).wf(),
            final(self).entries() == old(self).entries().update(
                i as int,
                (old(self).entries()[i as int].0, t),
            ),
            final(self)@ == old(self)@.insert(old(self).entries()[i as int].0 as int, t@),
    {
        let ghost before = self.tiles@;
        let key = self.tiles[i].0;
        let mut entry = self.tiles.remove(i);
        entry.1 = t;
        self.tiles.insert(i, entry);
        proof {
            assert(self.tiles@ =~= before.update(i as int, (key, entry.1)));
            lemma_assoc_update(before, i as int, entry.1);
            lemma_sorted_after_update(before, i as int, key, entry.1);
        }
    }

    /// Every raster this bitmap holds is complete.
    pub proof fn lemma_values(&self)
        requires
            self.wf(),
        ensures
            forall|k: int|
                #[trigger] self@.contains_key(k) ==> self@[k].len() == TILE_BITS,
    {
        lemma_assoc_values_len(self.tiles@);
    }

    /// Entry position of a key, if present (for the renderer in this crate).
    pub(crate) fn find_entry(&self, key: u32) -> (r: Option<usize>)
        requires
            self.wf(),
        ensures
            match r {
                Some(i) => i < self.entries().len() && self.entries()[i as int].0 == key,
                None => true,
            },
    {
        let (pos, found) = self.locate(key);
        if found {
            Some(pos)
        } else {
            None
        }
    }

    /// The underlying sorted entry list (for the codec in this crate).
    pub closed spec fn entries(&self) -> Seq<(u32, Tile)> {
        self.tiles@
    }

    /// What well-formedness guarantees about the entry list.
    pub proof fn lemma_entries(&self)
        requires
            self.wf(),
        ensures
            keys_sorted(self.entries()),
            entries_wf(self.entries()),
            self@ == assoc_map(self.entries()),
            self.entries().len() <= MAX_TILE_KEY,
    {
        lemma_sorted_len_bound(self.tiles@);
    }

    pub(crate) fn entry_count(&self) -> (n: usize)
        ensures
            n == self.entries().len(),
    {
        self.tiles.len()
    }

    pub(crate) fn entry_at(&self, i: usize) -> (r: (u32, &Tile))
        requires
            i < self.entries().len(),
        ensures
            r.0 == self.entries()[i as int].0,
            *r.1 == self.entries()[i as int].1,
    {
        (self.tiles[i].0, &self.tiles[i].1)
    }

    /// Insert a tile under a key known to be absent (for the codec in this crate).
    pub(crate) fn insert_fresh(&mut self, key: u32, tile: Tile)
        requires
            old(self).wf(),
            key < MAX_TILE_KEY,
            tile.wf(),
            !old(self)@.contains_key(key as int),
        ensures
            final(self).wf(),
            final(self)@ == old(self)@.insert(key as int, tile@),
    {
        proof {
            lemma_assoc_dom(self.tiles@);
        }
        self.insert_or_merge(key, tile);
    }

}

/// Well-formedness and cardinality of a sorted association list's map.
pub proof fn lemma_assoc_card(s: Seq<(u32, Tile)>)
    requires
        keys_sorted(s),
    ensures
        assoc_map(s).dom().finite(),
        assoc_map(s).dom().len() == s.len(),
    decreases s.len(),
{
    if s.len() > 0 {
        let dl = s.drop_last();
        lemma_assoc_card(dl);
        lemma_assoc_dom(dl);
        assert(!key_in(dl, s.last().0 as int));
        assert(!assoc_map(dl).dom().contains(s.last().0 as int));
        assert(assoc_map(s).dom() =~= assoc_map(dl).dom().insert(s.last().0 as int));
        vstd::set::axiom_set_insert_len(assoc_map(dl).dom(), s.last().0 as int);
    }
}

/// Sorted association lists that first disagree on a key describe different maps.
proof fn lemma_first_key_diff(s1: Seq<(u32, Tile)>, s2: Seq<(u32, Tile)>, i: int)
    requires
        keys_sorted(s1),
        keys_sorted(s2),
        s1.len() == s2.len(),
        0 <= i < s1.len(),
        forall|j: int| 0 <= j < i ==> (#[trigger] s1[j]).0 == s2[j].0,
        s1[i].0 != s2[i].0,
    ensures
        assoc_map(s1) != assoc_map(s2),
{
    lemma_assoc_dom(s1);
    lemma_assoc_dom(s2);
    if s1[i].0 < s2[i].0 {
        let k = s1[i].0 as int;
        assert(key_in(s1, k));
        assert forall|j: int| 0 <= j < s2.len() implies (#[trigger] s2[j]).0 != k by {
            if j < i {
                assert(s1[j].0 < s1[i].0);
            } else if j > i {
                assert(s2[i].0 < s2[j].0);
            }
        }
        assert(!key_in(s2, k));
        assert(assoc_map(s1).contains_key(k) && !assoc_map(s2).contains_key(k));
    } else {
        let k = s2[i].0 as int;
        assert(key_in(s2, k));
        assert forall|j: int| 0 <= j < s1.len() implies (#[trigger] s1[j]).0 != k by {
            if j < i {
                assert(s2[j].0 < s2[i].0);
            } else if j > i {
                assert(s1[i].0 < s1[j].0);
            }
        }
        assert(!key_in(s1, k));
        assert(assoc_map(s2).contains_key(k) && !assoc_map(s1).contains_key(k));
    }
}

/// Association lists equal key by key and bit by bit describe the same map.
proof fn lemma_assoc_pointwise_eq(s1: Seq<(u32, Tile)>, s2: Seq<(u32, Tile)>)
    requires
        s1.len() == s2.len(),
        forall|j: int|
            0 <= j < s1.len() ==> (#[trigger] s1[j]).0 == s2[j].0 && s1[j].1@ == s2[j].1@,
    ensures
        assoc_map(s1) == assoc_map(s2),
    decreases s1.len(),
{
    if s1.len() > 0 {
        assert(forall|j: int|
            0 <= j < s1.drop_last().len() ==> (#[trigger] s1.drop_last()[j]).0
                == s2.drop_last()[j].0 && s1.drop_last()[j].1@ == s2.drop_last()[j].1@);
        lemma_assoc_pointwise_eq(s1.drop_last(), s2.drop_last());
        assert(s1[s1.len() - 1].0 == s2[s2.len() - 1].0);
        assert(s1[s1.len() - 1].1@ == s2[s2.len() - 1].1@);
    }
}

/// In a well-formed association list every stored raster is complete.
pub proof fn lemma_assoc_values_len(s: Seq<(u32, Tile)>)
    requires
        entries_wf(s),
    ensures
        forall|k: int|
            #[trigger] assoc_map(s).contains_key(k) ==> assoc_map(s)[k].len() == TILE_BITS,
    decreases s.len(),
{
    if s.len() > 0 {
        let dl = s.drop_last();
        assert(forall|i: int| 0 <= i < dl.len() ==> dl[i] == s[i]);
        assert(entries_wf(dl));
        lemma_assoc_values_len(dl);
        assert(s[s.len() - 1].1.wf());
        assert forall|k: int| #[trigger] assoc_map(s).contains_key(k) implies assoc_map(s)[k].len()
            == TILE_BITS by {
            if k == s.last().0 {
                assert(assoc_map(s)[k] == s.last().1@);
            } else {
                assert(assoc_map(dl).contains_key(k));
                assert(assoc_map(s)[k] == assoc_map(dl)[k]);
            }
        }
    }
}

/// Every raster a tile map holds is complete.
pub open spec fn bm_values_complete(m: Map<int, Seq<bool>>) -> bool {
    forall|k: int| #[trigger] m.contains_key(k) ==> m[k].len() == TILE_BITS
}

/// Lighting a pixel on a merged map lights it on the right operand.
pub proof fn lemma_set_pixel_factor(m: Map<int, Seq<bool>>, a: Map<int, Seq<bool>>, wx: int, wy: int)
    requires
        bm_values_complete(m),
        bm_values_complete(a),
    ensures
        bm_set_pixel(merge_bm(m, a), wx, wy) == merge_bm(m, bm_set_pixel(a, wx, wy)),
{
    let k0 = pixel_tile_key(wx, wy);
    let j = pixel_bit_index(wx, wy);
    let lhs = bm_set_pixel(merge_bm(m, a), wx, wy);
    let rhs = merge_bm(m, bm_set_pixel(a, wx, wy));
    assert forall|k: int| #[trigger] lhs.contains_key(k) implies lhs[k] == rhs[k] by {
        if k == k0 {
            if m.contains_key(k0) && a.contains_key(k0) {
                assert(lhs[k] == or_bits(m[k0], a[k0]).update(j, true));
                assert(rhs[k] == or_bits(m[k0], a[k0].update(j, true)));
                assert forall|i: int| 0 <= i < TILE_BITS implies lhs[k][i] == rhs[k][i] by {}
                assert(lhs[k].len() == rhs[k].len());
                assert(lhs[k] =~= rhs[k]);
            } else if m.contains_key(k0) {
                assert(lhs[k] == m[k0].update(j, true));
                assert(rhs[k] == or_bits(m[k0], empty_tile_bits().update(j, true)));
                assert(m[k0].len() == TILE_BITS);
                assert(lhs[k] =~= rhs[k]);
            } else if a.contains_key(k0) {
                assert(lhs[k] =~= rhs[k]);
            } else {
                assert(lhs[k] =~= rhs[k]);
            }
        } else {
            assert(lhs[k] == merge_bm(m, a)[k]);
            assert(rhs[k] == merge_bm(m, a)[k]);
        }
    }
    assert(lhs =~= rhs);
}

/// Drawing a line on a merged map draws it on the right operand.
pub proof fn lemma_line_factor(
    m: Map<int, Seq<bool>>,
    a: Map<int, Seq<bool>>,
    x0: int,
    y0: int,
    x1: int,
    y1: int,
    cnt: int,
)
    requires
        bm_values_complete(m),
        bm_values_complete(a),
    ensures
        bm_line_upto(merge_bm(m, a), x0, y0, x1, y1, cnt) == merge_bm(
            m,
            bm_line_upto(a, x0, y0, x1, y1, cnt),
        ),
    decreases cnt,
{
    if cnt > 0 {
        lemma_line_factor(m, a, x0, y0, x1, y1, cnt - 1);
        lemma_line_complete(a, x0, y0, x1, y1, cnt - 1);
        let n = line_step_count(x0, y0, x1, y1);
        lemma_set_pixel_factor(
            m,
            bm_line_upto(a, x0, y0, x1, y1, cnt - 1),
            lerp(x0, x1, n, cnt - 1),
            lerp(y0, y1, n, cnt - 1),
        );
    }
}

/// Merging the empty map changes nothing.
pub proof fn lemma_merge_bm_empty(m: Map<int, Seq<bool>>)
    ensures
        merge_bm(m, Map::empty()) == m,
        merge_bm(Map::empty(), m) == m,
{
    assert(merge_bm(m, Map::empty()) =~= m);
    assert(merge_bm(Map::empty(), m) =~= m);
}

/// The maps the library builds stay complete.
pub proof fn lemma_set_pixel_complete(a: Map<int, Seq<bool>>, wx: int, wy: int)
    requires
        bm_values_complete(a),
    ensures
        bm_values_complete(bm_set_pixel(a, wx, wy)),
{
}

pub proof fn lemma_line_complete(
    a: Map<int, Seq<bool>>,
    x0: int,
    y0: int,
    x1: int,
    y1: int,
    cnt: int,
)
    requires
        bm_values_complete(a),
    ensures
        bm_values_complete(bm_line_upto(a, x0, y0, x1, y1, cnt)),
    decreases cnt,
{
    if cnt > 0 {
        lemma_line_complete(a, x0, y0, x1, y1, cnt - 1);
    }
}

pub proof fn lemma_merge_bm_complete(a: Map<int, Seq<bool>>, b: Map<int, Seq<bool>>)
    requires
        bm_values_complete(a),
        bm_values_complete(b),
    ensures
        bm_values_complete(merge_bm(a, b)),
{
}

/// A strictly sorted list of keys below `MAX_TILE_KEY` has at most that many entries.
pub proof fn lemma_sorted_len_bound(s: Seq<(u32, Tile)>)
    requires
        keys_sorted(s),
        entries_wf(s),
    ensures
        s.len() <= MAX_TILE_KEY,
{
    if s.len() > 0 {
        lemma_sorted_key_grows(s, s.len() - 1);
        assert(s[s.len() - 1].0 < MAX_TILE_KEY);
    }
}

/// In a strictly sorted list the key at position `i` is at least `i`.
proof fn lemma_sorted_key_grows(s: Seq<(u32, Tile)>, i: int)
    requires
        keys_sorted(s),
        0 <= i < s.len(),
    ensures
        s[i].0 >= i,
    decreases i,
{
    if i > 0 {
        lemma_sorted_key_grows(s, i - 1);
        assert(s[i - 1].0 < s[i].0);
    }
}

/// Number of set bits in a raster.
pub open spec fn count_true(s: Seq<bool>) -> nat
    decreases s.len(),
{
    if s.len() == 0 {
        0
    } else {
        count_true(s.drop_last()) + if s.last() {
            1nat
        } else {
            0nat
        }
    }
}

/// Total number of set bits over an entry list.
pub open spec fn entries_area(s: Seq<(u32, Tile)>) -> nat
    decreases s.len(),
{
    if s.len() == 0 {
        0
    } else {
        entries_area(s.drop_last()) + count_true(s.last().1@)
    }
}

/// A raster of `TILE_BITS` bits has at most `TILE_BITS` set.
pub proof fn lemma_count_true_bound(s: Seq<bool>)
    ensures
        count_true(s) <= s.len(),
    decreases s.len(),
{
    if s.len() > 0 {
        lemma_count_true_bound(s.drop_last());
    }
}

/// Sortedness survives replacing the tile at `pos` under the same key.
proof fn lemma_sorted_after_update(before: Seq<(u32, Tile)>, pos: int, key: u32, t: Tile)
    requires
        keys_sorted(before),
        entries_wf(before),
        0 <= pos < before.len(),
        before[pos].0 == key,
        t.wf(),
    ensures
        keys_sorted(before.update(pos, (key, t))),
        entries_wf(before.update(pos, (key, t))),
{
    let after = before.update(pos, (key, t));
    assert forall|i: int, j: int| 0 <= i < j < after.len() implies after[i].0 < after[j].0 by {
        assert(after[i].0 == before[i].0);
        assert(after[j].0 == before[j].0);
    }
    assert forall|i: int| 0 <= i < after.len() implies (#[trigger] after[i]).0 < MAX_TILE_KEY
        && after[i].1.wf() by {
        assert(before[i].0 < MAX_TILE_KEY);
    }
}

/// Sortedness survives inserting a fresh key at its ordered position.
proof fn lemma_sorted_after_fresh_insert(before: Seq<(u32, Tile)>, pos: int, key: u32, t: Tile)
    requires
        keys_sorted(before),
        entries_wf(before),
        0 <= pos <= before.len(),
        key < MAX_TILE_KEY,
        t.wf(),
        forall|i: int| 0 <= i < pos ==> (#[trigger] before[i]).0 < key,
        forall|i: int| pos <= i < before.len() ==> (#[trigger] before[i]).0 > key,
    ensures
        keys_sorted(before.insert(pos, (key, t))),
        entries_wf(before.insert(pos, (key, t))),
{
    let after = before.insert(pos, (key, t));
    assert forall|i: int, j: int| 0 <= i < j < after.len() implies after[i].0 < after[j].0 by {
        if i < pos {
            assert(after[i] == before[i]);
        } else if i > pos {
            assert(after[i] == before[i - 1]);
        }
        if j < pos {
            assert(after[j] == before[j]);
        } else if j > pos {
            assert(after[j] == before[j - 1]);
        }
    }
    assert forall|i: int| 0 <= i < after.len() implies (#[trigger] after[i]).0 < MAX_TILE_KEY
        && after[i].1.wf() by {
        if i < pos {
            assert(after[i] == before[i]);
        } else if i > pos {
            assert(after[i] == before[i - 1]);
        }
    }
}

} // verus!
