//! The parts of a wasm app in the structure of The Elm Architecture that do not touch the
//! browser: the model traits, the side effecting commands, the bookkeeping of dispatching, and
//! detaching.
pub mod detach;
pub mod dispatch;
pub mod model;
pub mod side_effect;
