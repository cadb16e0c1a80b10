//! What the library promises of its operations as a whole.
//!
//! The contracts say what each function returns. The laws here say what the operations
//! are for: what must hold over a whole run, of a result and the request it answers, and
//! of two requests that differ in one thing.

pub mod applications;
pub mod balancing;
pub mod connections;
pub mod keeping;
pub mod limiting;
pub mod passing;
pub mod proxying;
pub mod reporting;
pub mod routing;
pub mod running;
pub mod serving;
pub mod streaming;
pub mod texts;
pub mod variables;
