use crate::journey_bitmap::bm_line;
use crate::journey_bitmap::bm_values_complete;
use crate::journey_bitmap::lemma_line_complete;
use crate::journey_bitmap::lemma_line_factor;
use crate::journey_bitmap::lemma_merge_bm_complete;
use crate::journey_bitmap::lemma_merge_bm_empty;
use crate::journey_bitmap::merge_bm;
use crate::journey_bitmap::JourneyBitmap;
use crate::journey_header::JourneyHeader;
use crate::journey_header::JourneyKind;
use crate::journey_vector::JourneyVector;
use crate::journey_vector::TrackPoint;
use crate::journey_vector::TrackSegment;
use vstd::prelude::*;

verus! {

/// A journey artifact: either an already rasterized bitmap or a polyline.
pub enum JourneyData {
    Bitmap(JourneyBitmap),
    Vector(JourneyVector),
}

impl JourneyData {
    pub open spec fn wf(&self) -> bool {
        match self {
            JourneyData::Bitmap(b) => b.wf(),
            JourneyData::Vector(v) => v.wf(),
        }
    }
}

/// One stored journey as the aggregator sees it: its header and its artifact.
pub struct JourneyEntry {
    pub header: JourneyHeader,
    pub data: JourneyData,
}

impl JourneyEntry {
    pub open spec fn wf(&self) -> bool {
        self.data.wf()
    }
}

/// The tile map after drawing the first `cnt` points of one track segment:
/// each point is joined to its predecessor, the first point to itself.
pub open spec fn draw_segment_upto(
    m: Map<int, Seq<bool>>,
    pts: Seq<TrackPoint>,
    cnt: int,
) -> Map<int, Seq<bool>>
    decreases cnt,
{
    if cnt <= 0 {
        m
    } else {
        let prev = if cnt == 1 {
            pts[0]
        } else {
            pts[cnt - 2]
        };
        let cur = pts[cnt - 1];
        bm_line(
            draw_segment_upto(m, pts, cnt - 1),
            prev.x as int,
            prev.y as int,
            cur.x as int,
            cur.y as int,
        )
    }
}

/// The tile map after drawing the first `cnt` segments of a polyline journey.
pub open spec fn draw_vector_upto(
    m: Map<int, Seq<bool>>,
    segs: Seq<TrackSegment>,
    cnt: int,
) -> Map<int, Seq<bool>>
    decreases cnt,
{
    if cnt <= 0 {
        m
    } else {
        let seg = segs[cnt - 1];
        draw_segment_upto(
            draw_vector_upto(m, segs, cnt - 1),
            seg.track_points@,
            seg.track_points@.len() as int,
        )
    }
}

/// The tile map after drawing a whole polyline journey.
pub open spec fn draw_vector(m: Map<int, Seq<bool>>, v: &JourneyVector) -> Map<int, Seq<bool>> {
    draw_vector_upto(m, v.track_segments@, v.track_segments@.len() as int)
}

/// Whether an entry survives the date-range and kind filter.
pub open spec fn entry_included(
    h: JourneyHeader,
    from_date: Option<i64>,
    to_date: Option<i64>,
    kind: Option<JourneyKind>,
) -> bool {
    &&& match from_date {
        Some(f) => h.journey_date >= f,
        None => true,
    }
    &&& match to_date {
        Some(t) => h.journey_date <= t,
        None => true,
    }
    &&& match kind {
        Some(k) => h.journey_kind == k,
        None => true,
    }
}

/// The tile map after folding in the first `cnt` surviving entries.
pub open spec fn build_upto(
    m: Map<int, Seq<bool>>,
    entries: Seq<JourneyEntry>,
    from_date: Option<i64>,
    to_date: Option<i64>,
    kind: Option<JourneyKind>,
    cnt: int,
) -> Map<int, Seq<bool>>
    decreases cnt,
{
    if cnt <= 0 {
        m
    } else {
        let m0 = build_upto(m, entries, from_date, to_date, kind, cnt - 1);
        let e = entries[cnt - 1];
        if entry_included(e.header, from_date, to_date, kind) {
            match e.data {
                JourneyData::Bitmap(b) => merge_bm(m0, b@),
                JourneyData::Vector(v) => draw_vector(m0, &v),
            }
        } else {
            m0
        }
    }
}

/// Rasterize a polyline journey into a bitmap: within each segment every
/// point is joined to its predecessor by a line, and the first point of a
/// segment, joined to itself, lights its own pixel. Segments are independent.
pub fn add_journey_vector_to_journey_bitmap(
    journey_bitmap: &mut JourneyBitmap,
    journey_vector: &JourneyVector,
)
    requires
        old(journey_bitmap).wf(),
        journey_vector.wf(),
    ensures
        final(journey_bitmap).wf(),
        final(journey_bitmap)@ == draw_vector(old(journey_bitmap)@, journey_vector),
{
    let ns = journey_vector.track_segments.len();
    let mut si: usize = 0;
    while si < ns
        invariant
            journey_bitmap.wf(),
            journey_vector.wf(),
            ns == journey_vector.track_segments@.len(),
            si <= ns,
            journey_bitmap@ == draw_vector_upto(
                old(journey_bitmap)@,
                journey_vector.track_segments@,
                si as int,
            ),
        decreases ns - si,
    {
        let seg = &journey_vector.track_segments[si];
        let np = seg.track_points.len();
        let mut pi: usize = 0;
        while pi < np
            invariant
                journey_bitmap.wf(),
                journey_vector.wf(),
                ns == journey_vector.track_segments@.len(),
                si < ns,
                seg == &journey_vector.track_segments@[si as int],
                seg.wf(),
                np == seg.track_points@.len(),
                pi <= np,
                journey_bitmap@ == draw_segment_upto(
                    draw_vector_upto(
                        old(journey_bitmap)@,
                        journey_vector.track_segments@,
                        si as int,
                    ),
                    seg.track_points@,
                    pi as int,
                ),
            decreases np - pi,
        {
            let prev_idx = if pi == 0 {
                0
            } else {
                pi - 1
            };
            let prev = seg.track_points[prev_idx];
            let point = seg.track_points[pi];
            proof {
                assert(seg.track_points@[prev_idx as int].wf());
                assert(seg.track_points@[pi as int].wf());
            }
            journey_bitmap.add_line(prev.x, prev.y, point.x, point.y);
            pi += 1;
        }
        si += 1;
    }
}

/// Aggregate stored journeys into one bitmap: keep the entries inside the
/// inclusive date range and of the requested kind (each bound optional),
/// merge rasterized journeys by logical OR, and rasterize polylines.
pub fn build_journey_bitmap(
    entries: &Vec<JourneyEntry>,
    from_date: Option<i64>,
    to_date: Option<i64>,
    kind: Option<JourneyKind>,
) -> (r: JourneyBitmap)
    requires
        forall|i: int| 0 <= i < entries@.len() ==> (#[trigger] entries@[i]).wf(),
    ensures
        r.wf(),
        r@ == build_upto(
            Map::empty(),
            entries@,
            from_date,
            to_date,
            kind,
            entries@.len() as int,
        ),
{
    let mut journey_map = JourneyBitmap::new();
    let n = entries.len();
    let mut i: usize = 0;
    while i < n
        invariant
            journey_map.wf(),
            forall|j: int| 0 <= j < entries@.len() ==> (#[trigger] entries@[j]).wf(),
            n == entries@.len(),
            i <= n,
            journey_map@ == build_upto(
                Map::empty(),
                entries@,
                from_date,
                to_date,
                kind,
                i as int,
            ),
        decreases n - i,
    {
        let e = &entries[i];
        let included = match from_date {
            Some(f) => e.header.journey_date >= f,
            None => true,
        } && match to_date {
            Some(t) => e.header.journey_date <= t,
            None => true,
        } && match kind {
            Some(k) => e.header.journey_kind == k,
            None => true,
        };
        if included {
            match &e.data {
                JourneyData::Bitmap(b) => {
                    journey_map.merge_ref(b);
                },
                JourneyData::Vector(v) => {
                    add_journey_vector_to_journey_bitmap(&mut journey_map, v);
                },
            }
        }
        i += 1;
    }
    journey_map
}


/// One aggregation step: what folding a single entry into a map does.
pub open spec fn apply_entry(
    m: Map<int, Seq<bool>>,
    e: JourneyEntry,
    from_date: Option<i64>,
    to_date: Option<i64>,
    kind: Option<JourneyKind>,
) -> Map<int, Seq<bool>> {
    if entry_included(e.header, from_date, to_date, kind) {
        match e.data {
            JourneyData::Bitmap(b) => merge_bm(m, b@),
            JourneyData::Vector(v) => draw_vector(m, &v),
        }
    } else {
        m
    }
}

/// Unrolling the aggregation one entry at a time: each step of `build_upto`
/// is one `apply_entry`, so consecutive entries commute by the lemma below.
pub proof fn lemma_build_unfold(
    m: Map<int, Seq<bool>>,
    entries: Seq<JourneyEntry>,
    from_date: Option<i64>,
    to_date: Option<i64>,
    kind: Option<JourneyKind>,
    cnt: int,
)
    requires
        0 < cnt,
    ensures
        build_upto(m, entries, from_date, to_date, kind, cnt) == apply_entry(
            build_upto(m, entries, from_date, to_date, kind, cnt - 1),
            entries[cnt - 1],
            from_date,
            to_date,
            kind,
        ),
{
}

/// Drawing keeps every stored raster complete.
proof fn lemma_segment_complete(a: Map<int, Seq<bool>>, pts: Seq<TrackPoint>, cnt: int)
    requires
        bm_values_complete(a),
    ensures
        bm_values_complete(draw_segment_upto(a, pts, cnt)),
    decreases cnt,
{
    if cnt > 0 {
        lemma_segment_complete(a, pts, cnt - 1);
        let prev = if cnt == 1 {
            pts[0]
        } else {
            pts[cnt - 2]
        };
        let cur = pts[cnt - 1];
        lemma_line_complete(
            draw_segment_upto(a, pts, cnt - 1),
            prev.x as int,
            prev.y as int,
            cur.x as int,
            cur.y as int,
            crate::journey_bitmap::line_step_count(
                prev.x as int,
                prev.y as int,
                cur.x as int,
                cur.y as int,
            ) + 1,
        );
    }
}

proof fn lemma_vector_complete(a: Map<int, Seq<bool>>, segs: Seq<TrackSegment>, cnt: int)
    requires
        bm_values_complete(a),
    ensures
        bm_values_complete(draw_vector_upto(a, segs, cnt)),
    decreases cnt,
{
    if cnt > 0 {
        lemma_vector_complete(a, segs, cnt - 1);
        lemma_segment_complete(
            draw_vector_upto(a, segs, cnt - 1),
            segs[cnt - 1].track_points@,
            segs[cnt - 1].track_points@.len() as int,
        );
    }
}

/// One aggregation step keeps every stored raster complete.
proof fn lemma_apply_complete(
    a: Map<int, Seq<bool>>,
    e: JourneyEntry,
    from_date: Option<i64>,
    to_date: Option<i64>,
    kind: Option<JourneyKind>,
)
    requires
        bm_values_complete(a),
        e.wf(),
    ensures
        bm_values_complete(apply_entry(a, e, from_date, to_date, kind)),
{
    if entry_included(e.header, from_date, to_date, kind) {
        match e.data {
            JourneyData::Bitmap(b) => {
                b.lemma_values();
                lemma_merge_bm_complete(a, b@);
            },
            JourneyData::Vector(v) => {
                lemma_vector_complete(a, v.track_segments@, v.track_segments@.len() as int);
            },
        }
    }
}

/// Drawing a segment on a merged map draws it on the right operand.
proof fn lemma_segment_factor(
    m: Map<int, Seq<bool>>,
    a: Map<int, Seq<bool>>,
    pts: Seq<TrackPoint>,
    cnt: int,
)
    requires
        bm_values_complete(m),
        bm_values_complete(a),
    ensures
        draw_segment_upto(merge_bm(m, a), pts, cnt) == merge_bm(
            m,
            draw_segment_upto(a, pts, cnt),
        ),
    decreases cnt,
{
    if cnt > 0 {
        lemma_segment_factor(m, a, pts, cnt - 1);
        lemma_segment_complete(a, pts, cnt - 1);
        let prev = if cnt == 1 {
            pts[0]
        } else {
            pts[cnt - 2]
        };
        let cur = pts[cnt - 1];
        lemma_line_factor(
            m,
            draw_segment_upto(a, pts, cnt - 1),
            prev.x as int,
            prev.y as int,
            cur.x as int,
            cur.y as int,
            crate::journey_bitmap::line_step_count(
                prev.x as int,
                prev.y as int,
                cur.x as int,
                cur.y as int,
            ) + 1,
        );
    }
}

proof fn lemma_vector_factor(
    m: Map<int, Seq<bool>>,
    a: Map<int, Seq<bool>>,
    segs: Seq<TrackSegment>,
    cnt: int,
)
    requires
        bm_values_complete(m),
        bm_values_complete(a),
    ensures
        draw_vector_upto(merge_bm(m, a), segs, cnt) == merge_bm(m, draw_vector_upto(a, segs, cnt)),
    decreases cnt,
{
    if cnt > 0 {
        lemma_vector_factor(m, a, segs, cnt - 1);
        lemma_vector_complete(a, segs, cnt - 1);
        lemma_segment_factor(
            m,
            draw_vector_upto(a, segs, cnt - 1),
            segs[cnt - 1].track_points@,
            segs[cnt - 1].track_points@.len() as int,
        );
    }
}

/// One aggregation step is a merge: folding an entry into `m` merges in the
/// entry's own contribution, aggregated from nothing.
pub proof fn lemma_apply_is_merge(
    m: Map<int, Seq<bool>>,
    e: JourneyEntry,
    from_date: Option<i64>,
    to_date: Option<i64>,
    kind: Option<JourneyKind>,
)
    requires
        bm_values_complete(m),
        e.wf(),
    ensures
        apply_entry(m, e, from_date, to_date, kind) == merge_bm(
            m,
            apply_entry(Map::empty(), e, from_date, to_date, kind),
        ),
{
    lemma_merge_bm_empty(m);
    if entry_included(e.header, from_date, to_date, kind) {
        match e.data {
            JourneyData::Bitmap(b) => {
                b.lemma_values();
                lemma_merge_bm_empty(b@);
                JourneyBitmap::lemma_merge_bm_commutative(Map::empty(), b@);
                JourneyBitmap::lemma_merge_bm_associative(m, Map::empty(), b@);
            },
            JourneyData::Vector(v) => {
                lemma_vector_factor(
                    m,
                    Map::empty(),
                    v.track_segments@,
                    v.track_segments@.len() as int,
                );
            },
        }
    }
}

/// Two consecutive entries may be folded in either order: aggregation
/// amounts to merging each journey's own contribution, and merging is
/// commutative and associative. Order of the stored journeys is immaterial;
/// any reordering is a chain of such exchanges.
pub proof fn lemma_apply_entries_commute(
    m: Map<int, Seq<bool>>,
    e1: JourneyEntry,
    e2: JourneyEntry,
    from_date: Option<i64>,
    to_date: Option<i64>,
    kind: Option<JourneyKind>,
)
    requires
        bm_values_complete(m),
        e1.wf(),
        e2.wf(),
    ensures
        apply_entry(apply_entry(m, e1, from_date, to_date, kind), e2, from_date, to_date, kind)
            == apply_entry(
            apply_entry(m, e2, from_date, to_date, kind),
            e1,
            from_date,
            to_date,
            kind,
        ),
{
    let c1 = apply_entry(Map::empty(), e1, from_date, to_date, kind);
    let c2 = apply_entry(Map::empty(), e2, from_date, to_date, kind);
    assert(bm_values_complete(Map::<int, Seq<bool>>::empty()));
    lemma_apply_complete(Map::empty(), e1, from_date, to_date, kind);
    lemma_apply_complete(Map::empty(), e2, from_date, to_date, kind);
    lemma_apply_complete(m, e1, from_date, to_date, kind);
    lemma_apply_complete(m, e2, from_date, to_date, kind);
    lemma_apply_is_merge(m, e1, from_date, to_date, kind);
    lemma_apply_is_merge(m, e2, from_date, to_date, kind);
    lemma_apply_is_merge(merge_bm(m, c1), e2, from_date, to_date, kind);
    lemma_apply_is_merge(merge_bm(m, c2), e1, from_date, to_date, kind);
    lemma_merge_bm_complete(m, c1);
    lemma_merge_bm_complete(m, c2);
    JourneyBitmap::lemma_merge_bm_associative(m, c1, c2);
    JourneyBitmap::lemma_merge_bm_associative(m, c2, c1);
    JourneyBitmap::lemma_merge_bm_commutative(c1, c2);
}



/// Aggregation reads only the entries it folds.
proof fn lemma_build_prefix(
    m: Map<int, Seq<bool>>,
    s1: Seq<JourneyEntry>,
    s2: Seq<JourneyEntry>,
    from_date: Option<i64>,
    to_date: Option<i64>,
    kind: Option<JourneyKind>,
    cnt: int,
)
    requires
        cnt <= s1.len(),
        cnt <= s2.len(),
        forall|j: int| 0 <= j < cnt ==> s1[j] == s2[j],
    ensures
        build_upto(m, s1, from_date, to_date, kind, cnt) == build_upto(
            m,
            s2,
            from_date,
            to_date,
            kind,
            cnt,
        ),
    decreases cnt,
{
    if cnt > 0 {
        lemma_build_prefix(m, s1, s2, from_date, to_date, kind, cnt - 1);
    }
}

/// Entries already folded alike keep aggregating alike.
proof fn lemma_build_suffix(
    m: Map<int, Seq<bool>>,
    s1: Seq<JourneyEntry>,
    s2: Seq<JourneyEntry>,
    from_date: Option<i64>,
    to_date: Option<i64>,
    kind: Option<JourneyKind>,
    c0: int,
    cnt: int,
)
    requires
        0 <= c0 <= cnt,
        cnt <= s1.len(),
        cnt <= s2.len(),
        build_upto(m, s1, from_date, to_date, kind, c0) == build_upto(
            m,
            s2,
            from_date,
            to_date,
            kind,
            c0,
        ),
        forall|j: int| c0 <= j < cnt ==> s1[j] == s2[j],
    ensures
        build_upto(m, s1, from_date, to_date, kind, cnt) == build_upto(
            m,
            s2,
            from_date,
            to_date,
            kind,
            cnt,
        ),
    decreases cnt - c0,
{
    if cnt > c0 {
        lemma_build_suffix(m, s1, s2, from_date, to_date, kind, c0, cnt - 1);
    }
}

/// Aggregation keeps every stored raster complete.
proof fn lemma_build_complete(
    m: Map<int, Seq<bool>>,
    s: Seq<JourneyEntry>,
    from_date: Option<i64>,
    to_date: Option<i64>,
    kind: Option<JourneyKind>,
    cnt: int,
)
    requires
        bm_values_complete(m),
        cnt <= s.len(),
        forall|i: int| 0 <= i < s.len() ==> (#[trigger] s[i]).wf(),
    ensures
        bm_values_complete(build_upto(m, s, from_date, to_date, kind, cnt)),
    decreases cnt,
{
    if cnt > 0 {
        lemma_build_complete(m, s, from_date, to_date, kind, cnt - 1);
        lemma_build_unfold(m, s, from_date, to_date, kind, cnt);
        lemma_apply_complete(
            build_upto(m, s, from_date, to_date, kind, cnt - 1),
            s[cnt - 1],
            from_date,
            to_date,
            kind,
        );
    }
}

/// The entry at position `i` may be folded in last instead.
proof fn lemma_build_extract(
    m: Map<int, Seq<bool>>,
    s: Seq<JourneyEntry>,
    from_date: Option<i64>,
    to_date: Option<i64>,
    kind: Option<JourneyKind>,
    i: int,
)
    requires
        bm_values_complete(m),
        forall|j: int| 0 <= j < s.len() ==> (#[trigger] s[j]).wf(),
        0 <= i < s.len(),
    ensures
        build_upto(m, s, from_date, to_date, kind, s.len() as int) == apply_entry(
            build_upto(m, s.remove(i), from_date, to_date, kind, s.len() - 1),
            s[i],
            from_date,
            to_date,
            kind,
        ),
    decreases s.len() - i,
{
    let n = s.len() as int;
    if i == n - 1 {
        lemma_build_unfold(m, s, from_date, to_date, kind, n);
        lemma_build_prefix(m, s, s.remove(i), from_date, to_date, kind, n - 1);
    } else {
        let s2 = s.update(i, s[i + 1]).update(i + 1, s[i]);
        lemma_build_prefix(m, s, s2, from_date, to_date, kind, i);
        let base = build_upto(m, s, from_date, to_date, kind, i);
        lemma_build_complete(m, s, from_date, to_date, kind, i);
        lemma_apply_entries_commute(base, s[i], s[i + 1], from_date, to_date, kind);
        lemma_build_unfold(m, s, from_date, to_date, kind, i + 1);
        lemma_build_unfold(m, s, from_date, to_date, kind, i + 2);
        lemma_build_unfold(m, s2, from_date, to_date, kind, i + 1);
        lemma_build_unfold(m, s2, from_date, to_date, kind, i + 2);
        assert(build_upto(m, s2, from_date, to_date, kind, i) == base);
        assert(build_upto(m, s, from_date, to_date, kind, i + 2) == build_upto(
            m,
            s2,
            from_date,
            to_date,
            kind,
            i + 2,
        ));
        lemma_build_suffix(m, s, s2, from_date, to_date, kind, i + 2, n);
        assert(forall|j: int| 0 <= j < s2.len() ==> (#[trigger] s2[j]).wf());
        lemma_build_extract(m, s2, from_date, to_date, kind, i + 1);
        assert(s2[i + 1] == s[i]);
        assert(s2.remove(i + 1) =~= s.remove(i));
    }
}

/// Aggregating the same multiset of journeys, in any order, yields the same
/// bitmap: merging is commutative and associative, so the stored order of
/// journeys never shows in the aggregate.
pub proof fn lemma_build_permutation(
    entries1: Seq<JourneyEntry>,
    entries2: Seq<JourneyEntry>,
    from_date: Option<i64>,
    to_date: Option<i64>,
    kind: Option<JourneyKind>,
)
    requires
        entries1.to_multiset() == entries2.to_multiset(),
        forall|i: int| 0 <= i < entries1.len() ==> (#[trigger] entries1[i]).wf(),
        forall|i: int| 0 <= i < entries2.len() ==> (#[trigger] entries2[i]).wf(),
    ensures
        build_upto(
            Map::empty(),
            entries1,
            from_date,
            to_date,
            kind,
            entries1.len() as int,
        ) == build_upto(
            Map::empty(),
            entries2,
            from_date,
            to_date,
            kind,
            entries2.len() as int,
        ),
    decreases entries1.len(),
{
    entries1.to_multiset_ensures();
    entries2.to_multiset_ensures();
    if entries1.len() == 0 {
        assert(entries2.len() == 0);
    } else {
        let e = entries1.last();
        assert(entries1.contains(e));
        assert(entries2.to_multiset().count(e) > 0);
        assert(entries2.contains(e));
        let i = choose|i: int| 0 <= i < entries2.len() && entries2[i] == e;
        assert(bm_values_complete(Map::<int, Seq<bool>>::empty()));
        lemma_build_extract(Map::empty(), entries2, from_date, to_date, kind, i);
        let dl = entries1.drop_last();
        let r2 = entries2.remove(i);
        r2.to_multiset_ensures();
        dl.to_multiset_ensures();
        assert(entries1 =~= dl.push(e));
        assert(entries1.to_multiset() =~= dl.to_multiset().insert(e));
        assert(r2.to_multiset() =~= entries2.to_multiset().remove(e));
        assert(dl.to_multiset() =~= r2.to_multiset()) by {
            assert forall|a: JourneyEntry| dl.to_multiset().count(a) == r2.to_multiset().count(
                a,
            ) by {
                assert(entries1.to_multiset().count(a) == dl.to_multiset().insert(e).count(a));
                assert(r2.to_multiset().count(a) == entries2.to_multiset().remove(e).count(a));
            }
        }
        assert(forall|j: int| 0 <= j < dl.len() ==> (#[trigger] dl[j]).wf());
        assert(forall|j: int| 0 <= j < r2.len() ==> (#[trigger] r2[j]).wf()) by {
            assert(forall|j: int|
                0 <= j < r2.len() ==> #[trigger] r2[j] == (if j < i {
                    entries2[j]
                } else {
                    entries2[j + 1]
                }));
        }
        lemma_build_permutation(dl, r2, from_date, to_date, kind);
        lemma_build_unfold(
            Map::empty(),
            entries1,
            from_date,
            to_date,
            kind,
            entries1.len() as int,
        );
        lemma_build_prefix(
            Map::empty(),
            entries1,
            dl,
            from_date,
            to_date,
            kind,
            entries1.len() - 1,
        );
    }
}


} // verus!
