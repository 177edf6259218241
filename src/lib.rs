//! A chunked grid of block stacks on 32 layers that pass integer signals to
//! each other with per-tick delays, and the byte format it is saved in.
//!
//! - `direction`: tile addressing by chunk key and in-chunk index, and the
//!   direction/layer byte with its moves.
//! - `world`: blocks, layers of lazily created chunks, and the world with its
//!   queue of delayed signals.
//! - `runner`: one tick of the simulation, stated as a function on the world's model.
//! - `codec`: the big-endian save format of integers and sequences.
//! - `save`: the save format of blocks, signals, layers and worlds.
//! - `config`: the client's configuration file.

pub mod codec;
pub mod config;
pub mod direction;
pub mod runner;
pub mod save;
pub mod world;
