//! A library for validating data: an error tree that collects what is wrong
//! with a value and with the fields and items inside it, and renders it as a
//! report with one line per error.
pub mod error;
pub mod node;
pub mod order;
pub mod text;
pub mod validate;

pub use error::{ParamValue, ValidationError};
pub use node::ValidationNode;
pub use text::{fmt_path, fmt_path_element, PathElement};
pub use validate::{Validate, ValidateArgs};
