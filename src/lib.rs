pub mod component;
pub mod emulator;

pub use component::{and, input, not, or, xor, AndGate, Component, Error, NotGate, OrGate, XorGate};
pub use emulator::{EmulationResult, Emulator};
