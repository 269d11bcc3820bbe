//! Reader for the line-oriented, tab-separated cookie-store text format.
//!
//! The whole input is read in one pass: the grammar splits it into lines and
//! fields, each record line becomes a [`CookieRecord`], and the records are
//! folded into a [`Cookies`] in which a later record replaces an earlier one
//! of the same domain, path and name.
use vstd::prelude::*;

pub mod error;
pub mod export;
pub mod jar;
pub mod laws;
pub mod number;
pub mod parser;
pub mod record;
pub mod text;

pub use error::{Error, LineError, SyntaxError, SyntaxErrorKind};
pub use export::to_cookie_jar;
pub use jar::Cookies;
pub use parser::{parse, parse_bytes, CookieParser};
pub use record::CookieRecord;
