//! SplatterIron core: premultiplied-alpha pixels, layer compositing,
//! canvas and dirty-region bookkeeping, brush tools with undo capture,
//! layer management, brush-file parsing and canvas-file framing.

pub mod canvas;
pub mod pixel;
pub mod undo;
pub mod tools;
pub mod undo_history;
pub mod document;
pub mod app_state;
pub mod file_io;
pub mod tool_configuration;
pub mod files;
pub mod image_export;
pub mod asset_library;
