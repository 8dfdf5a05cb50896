//! Doors: calls of a procedure in another process, by the path that its door is
//! attached to. A door may have a lock, whose key is a large odd number: a caller
//! who holds it can go on with the binary division that the door has begun.
pub mod challenge;
pub mod cli;
pub mod compare;
pub mod door;
pub mod handshake;
pub mod hello;
pub mod hexcode;
pub mod key;
pub mod natural;
pub mod period;
pub mod random;
pub mod reciprocal;
pub mod runner;
pub mod text;
pub mod wire;
