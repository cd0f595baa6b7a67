//! The grammar of bencode as a pushdown automaton over tokens.
pub mod lemmas;
pub mod stack;
pub mod state;
pub mod structure_error;
pub mod token;

pub use self::stack::Stack;
pub use self::state::{run, step, FrameView, Label, LabelFrom, Latch, StateTracker};
pub use self::structure_error::{StructureError, StructureErrorView};
pub use self::token::{Token, TokenView};
