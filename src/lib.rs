//! The deterministic core of a robot arena: the RISC-V virtual machine that
//! runs each robot's firmware, the snapshots that a world publishes to its
//! observers, and the registry of worlds.
//!
//! - [`cpu`], [`isa`], [`exec`], [`mmio`], [`fault`]: the virtual machine, its
//!   memory map and the faults it raises;
//! - [`map`], [`snapshot`], [`bot_index`], [`lives`]: what a world shows;
//! - [`save`]: the saved form of a world's state;
//! - [`worlds`]: which worlds exist;
//! - [`upload`]: firmware pasted as base64 text;
//! - [`ui`]: layout and navigation decisions of the front end.

pub mod fault;
pub mod mmio;
pub mod cpu;
pub mod isa;
pub mod exec;
pub mod map;
pub mod bot_index;
pub mod snapshot;
pub mod lives;
pub mod worlds;
pub mod ui;
pub mod save;
pub mod upload;
