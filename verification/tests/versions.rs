use memolanes_core::journey_bitmap::JourneyBitmap;
use memolanes_core::journey_data::serialize_journey_bitmap;
use memolanes_core::map_renderer::{LazyTileSource, MapRenderer};

#[test]
fn version_string_round_trip() {
    let renderer = MapRenderer::new(JourneyBitmap::new());
    assert_eq!(renderer.get_current_version(), 0);
    assert_eq!(renderer.get_version_string(), "0");

    assert_eq!(MapRenderer::parse_version_string("0"), Some(0));
    assert_eq!(MapRenderer::parse_version_string("ff"), Some(255));
    assert_eq!(MapRenderer::parse_version_string("FF"), Some(255));
    assert_eq!(MapRenderer::parse_version_string("\"1a\""), Some(26));
    assert_eq!(MapRenderer::parse_version_string("+10"), Some(16));
    assert_eq!(MapRenderer::parse_version_string(""), None);
    assert_eq!(MapRenderer::parse_version_string("\"\""), None);
    assert_eq!(MapRenderer::parse_version_string("zz"), None);
    assert_eq!(MapRenderer::parse_version_string("ffffffffffffffff"), Some(u64::MAX));
    assert_eq!(MapRenderer::parse_version_string("1ffffffffffffffff"), None);
}

#[test]
fn version_changes_on_mutation_only() {
    let mut renderer = MapRenderer::new(JourneyBitmap::new());
    let v0 = renderer.get_version_string();
    assert_eq!(renderer.has_changed_since(Some(&v0)), None);

    // Rendering a frame does not bump the version.
    renderer.get_tile_buffer(0, 0, 9, 2, 2, 9).unwrap();
    assert_eq!(renderer.has_changed_since(Some(&v0)), None);

    // Replacing the bitmap bumps it.
    renderer.replace(JourneyBitmap::new());
    let after_replace = renderer.has_changed_since(Some(&v0));
    assert!(after_replace.is_some());
    let v1 = renderer.get_version_string();
    assert_eq!(after_replace, Some(v1.clone()));
    assert_eq!(renderer.has_changed_since(Some(&v1)), None);

    // An update bumps it too, whatever it changes.
    renderer.update(|bm| (bm, Vec::new()));
    assert!(renderer.has_changed_since(Some(&v1)).is_some());
    let v2 = renderer.get_version_string();

    // Adopting a lazy source bumps it.
    let blob = serialize_journey_bitmap(&JourneyBitmap::new());
    let source = LazyTileSource::from_serialized_bitmap(blob).unwrap();
    renderer.replace_lazy(source, JourneyBitmap::new());
    assert!(renderer.has_changed_since(Some(&v2)).is_some());

    // Lazy loading stays semantically invisible.
    let v3 = renderer.get_version_string();
    renderer.ensure_all_tiles_loaded();
    assert_eq!(renderer.has_changed_since(Some(&v3)), None);

    // A missing or garbled client version always gets the current string.
    assert_eq!(renderer.has_changed_since(None), Some(v3.clone()));
    assert_eq!(renderer.has_changed_since(Some("not hex")), Some(v3.clone()));
}

#[test]
fn update_draws_into_the_working_bitmap() {
    let mut renderer = MapRenderer::new(JourneyBitmap::new());
    renderer.update(|mut bm| {
        bm.add_line(1000, 1000, 1040, 1000);
        // The line crosses from tile (15, 15) into tile (16, 15).
        (bm, vec![15 * 512 + 15, 16 * 512 + 15])
    });
    assert_eq!(renderer.peek_latest_bitmap().num_tiles(), 2);
    assert_eq!(renderer.get_current_area(), 41);
}

#[test]
fn get_latest_bitmap_if_changed_pairs_bitmap_and_version() {
    let mut renderer = MapRenderer::new(JourneyBitmap::new());
    renderer.update(|mut bm| {
        bm.add_line(64, 64, 64, 64);
        (bm, vec![512 + 1])
    });
    let v = renderer.get_version_string();
    assert!(renderer.get_latest_bitmap_if_changed(Some(&v)).is_none());
    let (bm, vs) = renderer.get_latest_bitmap_if_changed(None).unwrap();
    assert_eq!(bm.num_tiles(), 1);
    assert_eq!(vs, v);
}
