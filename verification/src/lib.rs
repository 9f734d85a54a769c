pub mod glyph;
pub mod glyph_atlas;
pub mod raster;
pub mod packer;
pub mod ppm;
pub mod proc_cube;
pub mod cube_geometry;
pub mod renderer_pool;
pub mod counter;
pub mod config;
pub mod atlas_buffer;
pub mod device;
pub mod window_events;
pub mod frame;
pub mod text_geometry;
