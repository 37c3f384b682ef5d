//! A garbage collector whose collections run in steps.

mod cgc;
mod compat;
pub mod derive;
mod header;
pub mod heap;
mod holds;
pub mod laws;
mod lemmas;
pub mod model;
mod phase;
pub mod scan;
mod table;

pub use cgc::{Cgc, CgcBox};
pub use compat::CgcCompat;
pub use derive::{derive_cgccompat, DeriveError};
pub use header::{CgcHeader, Color, NULL};
pub use heap::{Heap, INITIAL_HEAP_SIZE};
pub use holds::Holds;
pub use model::{HeadersView, HeapView};
pub use phase::Phase;
pub use table::Headers;
