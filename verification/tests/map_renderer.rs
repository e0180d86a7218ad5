use memolanes_core::journey_bitmap::JourneyBitmap;
use memolanes_core::map_renderer::{LazyTileSource, MapRenderer, RendererError};
use memolanes_core::journey_data::serialize_journey_bitmap;
use memolanes_core::journey_data::deserialize_journey_bitmap;
use std::time::Instant;

const WORLD: f64 = 32768.0;

fn lng_to_px(lng: f64) -> u32 {
    let x = (lng + 180.0) / 360.0 * WORLD;
    x.floor().clamp(0.0, WORLD - 1.0) as u32
}

fn lat_to_px(lat: f64) -> u32 {
    let rad = lat.to_radians();
    let y = (1.0 - (rad.tan() + 1.0 / rad.cos()).ln() / std::f64::consts::PI) / 2.0 * WORLD;
    y.floor().clamp(0.0, WORLD - 1.0) as u32
}

fn add_line_lnglat(bm: &mut JourneyBitmap, lng0: f64, lat0: f64, lng1: f64, lat1: f64) {
    bm.add_line(
        lng_to_px(lng0),
        lat_to_px(lat0),
        lng_to_px(lng1),
        lat_to_px(lat1),
    );
}

fn tile_x_at(lng: f64, zoom: u32) -> f64 {
    (lng + 180.0) / 360.0 * (1u64 << zoom) as f64
}

fn tile_y_at(lat: f64, zoom: u32) -> f64 {
    let rad = lat.to_radians();
    (1.0 - (rad.tan() + 1.0 / rad.cos()).ln() / std::f64::consts::PI) / 2.0
        * (1u64 << zoom) as f64
}

fn tile_to_lng(tx: f64, zoom: u32) -> f64 {
    tx / (1u64 << zoom) as f64 * 360.0 - 180.0
}

fn tile_to_lat(ty: f64, zoom: u32) -> f64 {
    let n = std::f64::consts::PI * (1.0 - 2.0 * ty / (1u64 << zoom) as f64);
    n.sinh().atan().to_degrees()
}

#[test]
fn basic() {
    let mut journey_bitmap = JourneyBitmap::new();
    let start_lng = 151.1435370795134;
    let start_lat = -33.793291910360125;
    let end_lng = 151.2783692841415;
    let end_lat = -33.943600147192235;
    add_line_lnglat(&mut journey_bitmap, start_lng, start_lat, end_lng, end_lat);

    let mut map_renderer = MapRenderer::new(journey_bitmap);

    // The overlay viewport at zoom 11: the view tiles the line touches,
    // padded by one tile on each side, as the client renders it.
    let zoom = 11u32;
    let x_min = tile_x_at(start_lng.min(end_lng), zoom).floor() as i64 - 1;
    let x_max = tile_x_at(start_lng.max(end_lng), zoom).floor() as i64 + 1;
    let y_min = tile_y_at(start_lat.max(end_lat), zoom).floor() as i64 - 1;
    let y_max = tile_y_at(start_lat.min(end_lat), zoom).floor() as i64 + 1;

    let left = tile_to_lng(x_min as f64, zoom);
    let right = tile_to_lng((x_max + 1) as f64, zoom);
    let top = tile_to_lat(y_min as f64, zoom);
    let bottom = tile_to_lat((y_max + 1) as f64, zoom);
    assert!((left - 150.8203125).abs() < 1e-9);
    assert!((top - -33.578014746143985).abs() < 1e-9);
    assert!((right - 151.5234375).abs() < 1e-9);
    assert!((bottom - -34.16181816123038).abs() < 1e-9);

    let width = x_max - x_min + 1;
    let height = y_max - y_min + 1;
    let buffer = map_renderer
        .get_tile_buffer(x_min, y_min, zoom as i16, width, height, 9)
        .unwrap();
    assert_eq!(buffer.tile_data.len() as i64, width * height);
    let lit: usize = buffer.tile_data.iter().map(|c| c.len()).sum();
    assert!(lit > 0, "the rendered overlay must light pixels along the line");
}

#[test]
fn lazy_loading_correctness_and_performance() {
    // 1. Build a bitmap with lines spread across many geographic regions
    //    so the bitmap contains many distinct tiles.
    let mut journey_bitmap = JourneyBitmap::new();
    let regions: Vec<(f64, f64, f64, f64)> = vec![
        (151.14, -33.79, 151.28, -33.94), // Sydney
        (139.70, 35.60, 139.85, 35.75),   // Tokyo
        (-0.13, 51.48, 0.02, 51.53),      // London
        (-74.01, 40.70, -73.86, 40.85),   // New York
        (-43.20, -22.90, -43.05, -22.75), // Rio
        (116.35, 39.85, 116.50, 40.00),   // Beijing
        (77.15, 28.55, 77.30, 28.70),     // Delhi
        (2.30, 48.83, 2.45, 48.88),       // Paris
        (37.55, 55.70, 37.70, 55.85),     // Moscow
        (-118.30, 33.95, -118.15, 34.10), // Los Angeles
        (103.80, 1.25, 103.95, 1.40),     // Singapore
        (-46.60, -23.55, -46.45, -23.40), // Sao Paulo
        (174.70, -36.85, 174.85, -36.70), // Auckland
        (28.95, 41.00, 29.10, 41.15),     // Istanbul
        (100.50, 13.70, 100.65, 13.85),   // Bangkok
    ];
    for (start_lng, start_lat, end_lng, end_lat) in &regions {
        // Draw a diagonal and a cross-diagonal in each region
        add_line_lnglat(&mut journey_bitmap, *start_lng, *start_lat, *end_lng, *end_lat);
        add_line_lnglat(&mut journey_bitmap, *start_lng, *end_lat, *end_lng, *start_lat);
    }

    let total_tiles = journey_bitmap.num_tiles();
    println!("Total tiles in bitmap: {}", total_tiles);
    assert!(
        total_tiles >= 10,
        "Need multiple tiles for a meaningful lazy loading test, got {}",
        total_tiles
    );

    // 2. Serialize the bitmap
    let serialized = serialize_journey_bitmap(&journey_bitmap);
    println!("Serialized bitmap size: {} bytes", serialized.len());

    // 3. Eager path: full deserialization
    let eager_start = Instant::now();
    let eager_bitmap = deserialize_journey_bitmap(serialized.as_slice()).unwrap();
    let eager_init_duration = eager_start.elapsed();
    let mut eager_renderer = MapRenderer::new(eager_bitmap);

    // 4. Lazy path: only parse tile index headers, no decompression
    let lazy_start = Instant::now();
    let lazy_source = LazyTileSource::from_serialized_bitmap(serialized.clone()).unwrap();
    let lazy_init_duration = lazy_start.elapsed();
    let mut lazy_renderer = MapRenderer::new(JourneyBitmap::new());
    lazy_renderer.replace_lazy(lazy_source, JourneyBitmap::new());

    println!(
        "Eager init (full deserialization): {:?}",
        eager_init_duration
    );
    println!(
        "Lazy init (header parsing only):   {:?}",
        lazy_init_duration
    );

    // --- Performance assertion: lazy init should be faster ---
    assert!(
        lazy_init_duration < eager_init_duration,
        "Lazy init ({:?}) should be faster than eager init ({:?}) \
         because it skips decoding of all tile payloads",
        lazy_init_duration,
        eager_init_duration
    );

    // --- Correctness: no tiles loaded initially in lazy mode ---
    assert_eq!(
        lazy_renderer.peek_latest_bitmap().num_tiles(),
        0,
        "No tiles should be loaded initially in lazy mode"
    );

    // 5. Request tile buffer for a small viewport: Sydney area at zoom 11
    //    At zoom 11, Sydney (~lng 151.2, lat -33.9) maps to roughly tile (1884, 1228).
    //    This should only decompress the Sydney-area bitmap tile(s).
    let lazy_tile_buf = lazy_renderer
        .get_tile_buffer(1884, 1228, 11, 2, 2, 9)
        .unwrap();

    let loaded_after_viewport = lazy_renderer.peek_latest_bitmap().num_tiles();
    println!(
        "Tiles loaded after Sydney viewport request: {} / {}",
        loaded_after_viewport, total_tiles
    );

    // --- Only tiles needed for the viewport should be loaded ---
    assert!(
        loaded_after_viewport > 0,
        "At least one tile should be loaded after requesting a viewport"
    );
    assert!(
        loaded_after_viewport < total_tiles,
        "Only viewport tiles should be loaded ({} < {}), not the whole bitmap",
        loaded_after_viewport,
        total_tiles
    );

    // --- Correctness: lazy and eager produce identical tile buffers ---
    let eager_tile_buf = eager_renderer
        .get_tile_buffer(1884, 1228, 11, 2, 2, 9)
        .unwrap();
    assert!(
        lazy_tile_buf.same_buffer(&eager_tile_buf),
        "Lazy and eager should produce identical tile buffer output for the same viewport"
    );
    assert_eq!(lazy_tile_buf.tile_data, eager_tile_buf.tile_data);

    // 6. Load ALL remaining tiles from the lazy source
    lazy_renderer.ensure_all_tiles_loaded();
    assert_eq!(
        lazy_renderer.peek_latest_bitmap().num_tiles(),
        total_tiles,
        "After ensure_all_tiles_loaded, all {} tiles should be present",
        total_tiles
    );

    // --- Full bitmap equality after loading everything ---
    assert!(
        lazy_renderer
            .peek_latest_bitmap()
            .same_bitmap(eager_renderer.peek_latest_bitmap()),
        "After loading all tiles, lazy and eager bitmaps should be identical"
    );
}

#[test]
fn wrap_around_x_shades_the_same_tiles() {
    // A line crossing the antimeridian.
    let mut bm = JourneyBitmap::new();
    add_line_lnglat(&mut bm, 179.9, 10.0, -179.9, 10.2);
    let mut renderer = MapRenderer::new(bm);

    let a = renderer.get_tile_buffer(3, 1, 2, 1, 1, 8).unwrap();
    let b = renderer.get_tile_buffer(-1, 1, 2, 1, 1, 8).unwrap();
    assert_eq!(a.tile_data, b.tile_data);
    assert_eq!(a.x, 3);
    assert_eq!(b.x, -1);

    // The same column wraps at zoom 11 as well.
    let c = renderer.get_tile_buffer(-1, 1000, 11, 1, 1, 9).unwrap();
    let d = renderer.get_tile_buffer(2047, 1000, 11, 1, 1, 9).unwrap();
    assert_eq!(c.tile_data, d.tile_data);
}

#[test]
fn viewport_validation_rejects_bad_requests() {
    let mut renderer = MapRenderer::new(JourneyBitmap::new());
    let v0 = renderer.get_current_version();

    assert_eq!(
        renderer.get_tile_buffer(0, 0, 11, 0, 2, 9).unwrap_err(),
        RendererError::InvalidDimensions
    );
    assert_eq!(
        renderer.get_tile_buffer(0, 0, 11, 2, -3, 9).unwrap_err(),
        RendererError::InvalidDimensions
    );
    assert_eq!(
        renderer.get_tile_buffer(0, 0, 11, 21, 2, 9).unwrap_err(),
        RendererError::DimensionsTooLarge
    );
    assert_eq!(
        renderer.get_tile_buffer(0, 0, 26, 2, 2, 9).unwrap_err(),
        RendererError::InvalidZoom
    );
    assert_eq!(
        renderer.get_tile_buffer(0, 0, -1, 2, 2, 9).unwrap_err(),
        RendererError::InvalidZoom
    );
    assert_eq!(
        renderer.get_tile_buffer(0, 0, 11, 2, 2, 5).unwrap_err(),
        RendererError::InvalidBufferSize
    );
    assert_eq!(
        renderer.get_tile_buffer(0, 0, 11, 2, 2, 12).unwrap_err(),
        RendererError::InvalidBufferSize
    );
    assert_eq!(
        renderer.get_tile_buffer(0, -1, 11, 2, 2, 9).unwrap_err(),
        RendererError::InvalidYCoordinate
    );
    assert_eq!(
        renderer.get_tile_buffer(0, 2048, 11, 2, 2, 9).unwrap_err(),
        RendererError::InvalidYCoordinate
    );
    assert!(RendererError::InvalidZoom.message().contains("zoom"));

    // Validation never touches tiles nor the version.
    assert_eq!(renderer.get_current_version(), v0);
    assert_eq!(renderer.peek_latest_bitmap().num_tiles(), 0);
}

#[test]
fn lazy_emptiness_and_drop_keeps_loaded_pixels() {
    let mut bm = JourneyBitmap::new();
    add_line_lnglat(&mut bm, 151.2, -33.9, 151.25, -33.95);
    let blob = serialize_journey_bitmap(&bm);
    let source = LazyTileSource::from_serialized_bitmap(blob).unwrap();

    let mut renderer = MapRenderer::new(JourneyBitmap::new());
    renderer.replace_lazy(source, JourneyBitmap::new());
    assert_eq!(renderer.peek_latest_bitmap().num_tiles(), 0);

    renderer.get_tile_buffer(1884, 1228, 11, 2, 2, 9).unwrap();
    let loaded = renderer.peek_latest_bitmap().num_tiles();
    assert!(loaded > 0);

    // Dropping the lazy source frees it but keeps tiles already merged.
    renderer.drop_lazy_source();
    assert_eq!(renderer.peek_latest_bitmap().num_tiles(), loaded);
}

#[test]
fn frame_materializes_only_covered_tiles() {
    // A lazy source holding only Sydney-area tiles.
    let mut bm = JourneyBitmap::new();
    add_line_lnglat(&mut bm, 151.2, -33.9, 151.25, -33.95);
    let blob = serialize_journey_bitmap(&bm);
    let source = LazyTileSource::from_serialized_bitmap(blob).unwrap();
    let mut renderer = MapRenderer::new(JourneyBitmap::new());
    renderer.replace_lazy(source, JourneyBitmap::new());

    // A London viewport covers no Sydney tile: nothing materializes.
    renderer.get_tile_buffer(1023, 680, 11, 2, 2, 9).unwrap();
    assert_eq!(renderer.peek_latest_bitmap().num_tiles(), 0);

    // The Sydney viewport materializes its tiles and nothing more afterwards.
    renderer.get_tile_buffer(1884, 1228, 11, 2, 2, 9).unwrap();
    let loaded = renderer.peek_latest_bitmap().num_tiles();
    assert!(loaded > 0);
    renderer.get_tile_buffer(1023, 680, 11, 2, 2, 9).unwrap();
    assert_eq!(renderer.peek_latest_bitmap().num_tiles(), loaded);
}

#[test]
fn area_counts_set_pixels() {
    let mut bm = JourneyBitmap::new();
    // A zero-length line lights exactly one pixel.
    bm.add_line(1000, 2000, 1000, 2000);
    let mut renderer = MapRenderer::new(bm);
    assert_eq!(renderer.get_current_area(), 1);

    // A horizontal line of 11 pixels.
    let mut bm2 = JourneyBitmap::new();
    bm2.add_line(5000, 6000, 5010, 6000);
    let mut renderer2 = MapRenderer::new(bm2);
    assert_eq!(renderer2.get_current_area(), 11);
    // Memoized: asking twice gives the same result.
    assert_eq!(renderer2.get_current_area(), 11);
}
