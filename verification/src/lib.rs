//! Translation of bipartite, phase-free ZX diagrams annotated with
//! space/time coordinates into a textual stabilizer-circuit program,
//! cross-referenced against externally supplied correlation surfaces
//! ("webs") to emit parity-check (detector) instructions.

pub mod coord;
pub mod diagram;
pub mod keys;
pub mod instr;
pub mod translate;
pub mod laws;
