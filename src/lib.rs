//! Reconciles resolved key/value secrets into a `KEY=value` configuration
//! document, extracts the keys a template declares, and classifies keys whose
//! values must be masked when displayed.

pub mod env_handler;
pub mod envmap;
pub mod order;
pub mod resolve;
pub mod secret_masker;
pub mod template;
pub mod text;
