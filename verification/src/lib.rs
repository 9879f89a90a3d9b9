//! Modular wasm application framework: a virtual dom, the diff between two of them, the patches
//! that move the browser's dom from one to the other, and the app traits around them.
pub mod vdom;
pub mod patch;
pub mod apply;
pub mod apply_laws;
pub mod render_laws;
pub mod diff_model;
pub mod diff;
pub mod diff_laws;
pub mod key_laws;
pub mod store_laws;
pub mod handle_laws;
pub mod dom;
pub mod app;
pub mod route;
pub mod component;
pub mod generic_helpers;
pub mod test;
