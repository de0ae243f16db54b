//! Wireframe rendering of a tesseract: its fixed topology, the mapping of
//! projected points to pixels, the rasterizer that strokes edges into a
//! greyscale grid with depth shading and brighter-wins compositing, the
//! run-length compression of a grid for half-block terminal display, and the
//! key bindings of the live view.
pub mod compress;
pub mod controls;
pub mod geometry;
pub mod raster;
pub mod screen;
