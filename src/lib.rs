//! Keystroke injection: logical keys, event plans for each platform backend,
//! the keyboard-layout resolver of the virtual input device backend, backend
//! selection, and the normalisation of captured key events.

pub mod keys;
pub mod event;
pub mod resolver;
pub mod options;
pub mod injector;
pub mod engine;
pub mod capture;
