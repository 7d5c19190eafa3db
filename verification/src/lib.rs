//! A hardware module graph and the compiler that lowers its signals to the
//! expressions and assignments of a cycle simulator.

pub mod arena;
pub mod bounds;
pub mod check;
pub mod compiler;
pub mod context;
pub mod design;
pub mod faithful;
pub mod graph;
pub mod growth;
pub mod il;
pub mod language;
pub mod laws;
pub mod lowering;
pub mod name;
pub mod parts;
pub mod reads;
pub mod scoped_map;
pub mod search;
pub mod semantics;
pub mod stack;
pub mod words;
