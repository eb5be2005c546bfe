//! Core logic of the controller-pack installer: area codes, the GNG sector
//! filename grammar, archive entry names with Windows separators, and the
//! layout rules that recognise a controller pack on disk.

pub mod fir;
pub mod text;
pub mod pack_sync;
pub mod archive_paths;
pub mod pack_dir;
