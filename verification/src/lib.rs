pub mod journey_bitmap;
pub mod journey_data;
pub mod journey_header;
pub mod journey_vector;
pub mod layer_cache;
pub mod map_renderer;
pub mod merged_journey_builder;
