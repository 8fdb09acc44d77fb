//! A verified core for a data-driven command-line API client.
//!
//! The crate has two halves.  The compiler half ([`compile`]) reads an API
//! description document, modelled as a [`json::Json`] value, and produces a
//! normalized [`tree::CommandTree`]: resources, operations, parameters and
//! body shapes, in a deterministic order.  The runtime half ([`coerce`],
//! [`request`], [`response`]) takes one operation of that tree together with
//! the string arguments bound to it, coerces the strings into typed JSON
//! values, assembles the URL, query string and request body, and triages the
//! response of the one HTTP call into a body view and a raw envelope view.
//!
//! Everything that decides or computes lives here with a contract; reading
//! files, the argument parser and the HTTP transport stay outside.

pub mod cli;
pub mod coerce;
pub mod compile;
pub mod encode;
pub mod errors;
pub mod json;
pub mod outside;
pub mod request;
pub mod response;
pub mod text;
pub mod tree;
