use memolanes_core::journey_bitmap::JourneyBitmap;
use memolanes_core::journey_data::deserialize_journey_bitmap;
use memolanes_core::journey_header::{JourneyHeader, JourneyKind};
use memolanes_core::journey_vector::{JourneyVector, TrackPoint, TrackSegment};
use memolanes_core::layer_cache::{LayerCache, LayerKind};
use memolanes_core::merged_journey_builder::{
    add_journey_vector_to_journey_bitmap, build_journey_bitmap, JourneyData, JourneyEntry,
};

fn raster_entry(kind: JourneyKind, date: i64, x0: u32, y0: u32, x1: u32, y1: u32) -> JourneyEntry {
    let mut bm = JourneyBitmap::new();
    bm.add_line(x0, y0, x1, y1);
    JourneyEntry {
        header: JourneyHeader { journey_kind: kind, journey_date: date },
        data: JourneyData::Bitmap(bm),
    }
}

fn vector_entry(kind: JourneyKind, date: i64, pts: &[(u32, u32)]) -> JourneyEntry {
    let segment = TrackSegment {
        track_points: pts.iter().map(|&(x, y)| TrackPoint { x, y }).collect(),
    };
    JourneyEntry {
        header: JourneyHeader { journey_kind: kind, journey_date: date },
        data: JourneyData::Vector(JourneyVector { track_segments: vec![segment] }),
    }
}

#[test]
fn polyline_rasterization_marks_every_point() {
    let mut bm = JourneyBitmap::new();
    let v = JourneyVector {
        track_segments: vec![
            TrackSegment {
                track_points: vec![
                    TrackPoint { x: 100, y: 100 },
                    TrackPoint { x: 110, y: 100 },
                ],
            },
            TrackSegment { track_points: vec![TrackPoint { x: 9000, y: 9000 }] },
        ],
    };
    add_journey_vector_to_journey_bitmap(&mut bm, &v);
    // Both segments put bits in their tiles: (1, 1) and (140, 140).
    assert!(bm.get_tile(1, 1).is_some());
    assert!(bm.get_tile(140, 140).is_some());
    assert_eq!(bm.num_tiles(), 2);
}

#[test]
fn aggregation_is_order_insensitive() {
    let a = || raster_entry(JourneyKind::DefaultKind, 10, 100, 100, 900, 500);
    let b = || vector_entry(JourneyKind::DefaultKind, 11, &[(5000, 5000), (5100, 5050)]);
    let c = || raster_entry(JourneyKind::DefaultKind, 12, 20000, 20000, 20010, 20300);

    let one = build_journey_bitmap(&vec![a(), b(), c()], None, None, None);
    let two = build_journey_bitmap(&vec![c(), a(), b()], None, None, None);
    let three = build_journey_bitmap(&vec![b(), c(), a()], None, None, None);
    assert!(one.same_bitmap(&two));
    assert!(two.same_bitmap(&three));
}

#[test]
fn date_and_kind_filters_are_inclusive() {
    let entries = vec![
        raster_entry(JourneyKind::DefaultKind, 5, 100, 100, 200, 200),
        raster_entry(JourneyKind::Flight, 10, 10000, 10000, 10100, 10100),
        raster_entry(JourneyKind::DefaultKind, 15, 20000, 20000, 20100, 20100),
    ];

    // Filtering by kind keeps exactly the journeys of that kind.
    let only_flight = build_journey_bitmap(&entries, None, None, Some(JourneyKind::Flight));
    let flight_alone = build_journey_bitmap(
        &vec![raster_entry(JourneyKind::Flight, 10, 10000, 10000, 10100, 10100)],
        None,
        None,
        None,
    );
    assert!(only_flight.same_bitmap(&flight_alone));

    // Both date bounds are inclusive.
    let ranged = build_journey_bitmap(&entries, Some(5), Some(10), None);
    let first_two = build_journey_bitmap(
        &vec![
            raster_entry(JourneyKind::DefaultKind, 5, 100, 100, 200, 200),
            raster_entry(JourneyKind::Flight, 10, 10000, 10000, 10100, 10100),
        ],
        None,
        None,
        None,
    );
    assert!(ranged.same_bitmap(&first_two));

    // An empty range keeps nothing.
    let empty = build_journey_bitmap(&entries, Some(6), Some(9), None);
    assert_eq!(empty.num_tiles(), 0);

    // The unfiltered aggregate is the merge of the per-kind aggregates.
    let all = build_journey_bitmap(&entries, None, None, None);
    let mut merged = build_journey_bitmap(&entries, None, None, Some(JourneyKind::DefaultKind));
    merged.merge(only_flight);
    assert!(all.same_bitmap(&merged));
}

#[test]
fn all_layer_is_the_merge_of_both_kinds() {
    let entries = vec![
        raster_entry(JourneyKind::DefaultKind, 1, 100, 100, 600, 400),
        raster_entry(JourneyKind::Flight, 2, 30000, 30000, 30500, 30100),
    ];
    let mut cache = LayerCache::new();
    let all_blob = cache.get_or_compute(LayerKind::All, &entries);

    let d_blob = cache.get_raw(LayerKind::JourneyKind(JourneyKind::DefaultKind)).unwrap();
    let f_blob = cache.get_raw(LayerKind::JourneyKind(JourneyKind::Flight)).unwrap();
    let mut merged = deserialize_journey_bitmap(d_blob.as_slice()).unwrap();
    let flight = deserialize_journey_bitmap(f_blob.as_slice()).unwrap();
    merged.merge(flight);

    let all = deserialize_journey_bitmap(all_blob.as_slice()).unwrap();
    assert!(all.same_bitmap(&merged));
}

#[test]
fn layer_is_computed_once_and_served_from_the_cache() {
    let entries = vec![raster_entry(JourneyKind::DefaultKind, 1, 100, 100, 600, 400)];
    let mut cache = LayerCache::new();
    assert!(cache.get_raw(LayerKind::All).is_none());

    let first = cache.get_or_compute(LayerKind::All, &entries);
    // A second request, even with different entries, serves the stored blob.
    let other_entries = vec![raster_entry(JourneyKind::Flight, 2, 9000, 9000, 9100, 9100)];
    let second = cache.get_or_compute(LayerKind::All, &other_entries);
    assert_eq!(first, second);
    assert_eq!(cache.get_raw(LayerKind::All).unwrap(), &first);
}
