//! Resume a coding harness' session in another harness.
//!
//! Sessions are read into one canonical model (`model`, `parse`, `history`, `summary`) and written
//! from it in the target's own format (`draft` with `turns`, `entries`, `rollout`, `slot`). What
//! does not fit the target's context window is compacted (`window`, `budget`, `digest`,
//! `compact`). `roundtrip` and `chain` prove what a written session gives back when it is read,
//! `landing` that a compacted one fits its budget, `weight` that a file is as large as what it
//! carries.
//!
//! What the library promises of each part is proved beside it: `reading` says what the records of
//! every harness are read as, `writing` what a written session says, `headline` what a session is
//! listed by, `recency` and `outline` what a compacted one keeps and tells, `limits` which window a
//! configuration gives, `naming` where sessions stand and what they are called, `picking` what keys
//! do, `phrases` what the text primitives come to.
//!
//! Comments name the harnesses Factory, Pi, OMP, CL and Codex; CL is the label of the fourth.

use vstd::prelude::*;

pub mod budget;
pub mod chain;
pub mod compact;
pub mod digest;
pub mod discover;
pub mod draft;
pub mod entries;
pub mod headline;
pub mod history;
pub mod ids;
pub mod iso;
pub mod json;
pub mod landing;
pub mod limits;
pub mod model;
pub mod naming;
pub mod outline;
pub mod parse;
pub mod phrases;
pub mod picking;
pub mod reading;
pub mod recency;
pub mod recent;
pub mod records;
pub mod resume;
pub mod rollout;
pub mod roundtrip;
pub mod screen;
pub mod slot;
pub mod summary;
pub mod text;
pub mod tui;
pub mod turns;
pub mod weight;
pub mod window;
pub mod words;
pub mod writing;

verus! {

} // verus!
