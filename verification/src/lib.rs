//! Keyboard-binding resolution for a minimal display-server client: it reads
//! the runtime keymap into a name-to-code table, turns `modifier-modifier-name`
//! patterns into canonical (modifier mask, raw code) key identities, resolves a
//! declaration list into a binding table, and decides what each incoming input
//! event dispatches to.

pub mod bindings;
pub mod bytes;
pub mod codemap;
pub mod config;
pub mod dispatch;
pub mod keys;
