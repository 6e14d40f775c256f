//! Semantic search over a store of markdown memories.
//!
//! A memory file is cut into chunks (`chunk`), the chunks of a store are
//! embedded by a model and kept by the hash of their content (`index`), and the
//! best of them are found by their scores (`search`). The `[[wikilinks]]` of the
//! store name what belongs together (`links`). A daemon (`daemon`) serves the
//! index while the store changes (`stamp`), reads what it is asked (`request`)
//! and decides what it gives out (`hits`). A model is judged by what it ranks
//! first (`trial`).
//!
//! What a function does stands in its contract, over the spec functions beside
//! it; what holds across functions stands in the `law_` proofs.
use vstd::prelude::*;

pub mod answer_laws;
pub mod chunk;
pub mod chunk_laws;
pub mod daemon;
pub mod daemon_laws;
pub mod file_laws;
pub mod hit_laws;
pub mod hits;
pub mod index;
pub mod index_laws;
pub mod link_laws;
pub mod links;
pub mod note_laws;
pub mod order;
pub mod paths;
pub mod request;
pub mod request_laws;
pub mod search;
pub mod sort;
pub mod stamp;
pub mod store;
pub mod store_laws;
pub mod strmap;
pub mod text;
pub mod text_laws;
pub mod trial;

pub use chunk::{chunk_file, Chunk};
pub use index::{Cache, Index, Reindex, WarmCache};
pub use links::LinkGraph;
pub use paths::{cache_path, model_dir, socket_path};
pub use stamp::store_stamp;
pub use store::chunk_store;

verus! {

} // verus!
