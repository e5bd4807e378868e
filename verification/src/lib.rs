//! A syntactic URI recognizer with stacked, positional diagnostics.
//!
//! Every grammar rule takes the text that is still to be read and returns
//! either the text that follows what it recognized together with the value
//! it recognized, or the stack of failures that explains why nothing was
//! recognized. `parse_uri` applies the rules one after the other to a whole
//! input.
//!
//! All contracts are stated over the UTF-8 bytes of the texts involved. For
//! each rule a function on byte sequences says what the rule returns, and
//! the contract of the rule says that it returns just that. Beside each rule
//! stand its laws: what remains is a proper suffix of the input; the input is
//! the text of what was read, followed by what remains; the text of a value
//! is read as that value; a diagnostic lies in the input.

pub mod text;
pub mod error;
pub mod number;
pub mod scheme;
pub mod authority;
pub mod host;
pub mod port;
pub mod path;
pub mod query;
pub mod fragment;
pub mod uri;
pub mod written;

pub use authority::{authority, Authority};
pub use error::{ErrorKind, ParseError, Res};
pub use fragment::fragment;
pub use host::{host, Host};
pub use path::path;
pub use port::port;
pub use query::{query, QueryParam, QueryParams};
pub use scheme::{scheme, Scheme, UnknownScheme};
pub use uri::{parse_uri, uri, URI};
