//! Independent checker for linear-arithmetic elimination certificates.

pub mod text;
pub mod form;
pub mod parse;
pub mod certificate;
pub mod json;
pub mod replay;
pub mod round_trip;
pub mod spacing;
pub mod reading;

pub use certificate::{canonical_forms, verify};
pub use form::{CoeffMap, LinearForm, VerifyError};
pub use json::{Json, Number};
pub use parse::parse_form;
pub use replay::{check_certificate, replay_bound, Status};
