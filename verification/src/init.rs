//! Turning a config file somebody already wrote into a template, a theme and a target.
//!
//! Nothing is written until the template renders back to the original character for
//! character.

pub mod answer;
pub mod dialogue;
pub mod emit;
pub mod naming;
pub mod plan;
pub mod scan;
pub mod scan_laws;
pub mod weave;

pub use answer::{answer, Answer, AnswerError};
pub use emit::EmitError;
pub use naming::{display_name, suggest};
pub use plan::{plan, Draft, InitError, Plan, Written};
pub use scan::{scan, Colour, Occurrence, Scan, Unhandled};
pub use weave::{weave, Binding};
