//! Random access into a large JSON document that is read one chunk at a time.
//!
//! The library never holds the whole document. Bytes arrive in chunks that a
//! [`chunks::ChunkWindow`] keeps while a scan needs them; every scan works on
//! what is resident, and names the chunk it misses when something is not.
//!
//! Contracts speak of the document as a plain sequence of bytes: a result holds
//! for every document that agrees with the chunks in the window, so it does not
//! depend on how the bytes arrived.

pub mod bits;
pub mod scan;
pub mod simd;
pub mod bitmap;
pub mod text;
pub mod source;
pub mod chunks;
pub mod walker;
pub mod keys;
pub mod path;
pub mod resolve;
pub mod cache;
pub mod index_cache;
pub mod index_laws;
pub mod soundness;
pub mod count;
pub mod children;
pub mod resuming;
pub mod select;
pub mod session;
pub mod query;
pub mod answers;
pub mod eval;
pub mod projection;
pub mod stream;
pub mod items;
pub mod history;
pub mod pointer;
pub mod predicate;
pub mod cursor;
pub mod json;
pub mod reading;
pub mod meaning;
pub mod yields;
pub mod comparing;
pub mod faults;
pub mod reports;
pub mod bounds;
pub mod remembering;
pub mod noting;
