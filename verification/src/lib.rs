//! Core of a keyboard-driven hierarchical checklist editor.
//!
//! The library holds the verified logic: the checklist tree with its
//! path-addressed cursor and movement rules, the length-prefixed binary
//! codec used to persist a tree, the depth-first renderer, the staged
//! terminal-mode state machine, and the UTF-8 keystroke decoder.
//! Everything that touches a device (reads, writes, attribute system
//! calls) lives outside, hands the library plain values, and takes
//! plain values back.

pub mod codec;
pub mod input;
pub mod nav;
pub mod render;
pub mod term;
pub mod tree;
