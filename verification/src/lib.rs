//! Run a command template once per input line, in parallel, substituting
//! pieces of the line into the template; collect the per-job results either
//! in completion order or reassembled into strict input order.
//!
//! The crate holds the verified core: the template expansion engine, the
//! field split/join rules, the job producer's admission logic, the shaping
//! of per-job results, and the order-restoring result collector. Reading
//! stdin, spawning processes and printing belong to the surrounding binary.

pub mod collector;
pub mod fields;
pub mod jobs;
pub mod rx;
pub mod template;
pub mod text;
