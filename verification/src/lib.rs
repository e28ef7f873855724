//! Object graph core for a hierarchical 2D animation document: typed handles,
//! per-type object stores, ownership and parent/child transfer with cycle
//! prevention, an undo/redo action journal, and identity-preserving
//! serialization with content-addressed external file references.

pub mod action;
pub mod codec;
pub mod counts;
pub mod files;
pub mod folder;
pub mod frame;
pub mod graphic;
pub mod layer;
pub mod palette;
pub mod project;
pub mod saveload;
pub mod store;
pub mod stroke;
pub mod util;

pub use store::{ObjList, ObjPtr};
