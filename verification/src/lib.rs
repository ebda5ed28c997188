//! A metrics instrumentation library.
//!
//! Application code creates typed metric objects (counters and gauges),
//! mutates them, and periodically exports a consistent, sorted snapshot of
//! every registered metric in one of two wire formats: the plain-text
//! exposition format and the length-delimited binary record format.
//!
//! The crate is organised leaves-first: [`atomic64`] holds the numeric
//! cells, [`lexical`] the character order behind every sorted output,
//! [`numtext`] the canonical numeric renderings, [`desc`] the immutable
//! family descriptors, [`proto`] the wire-neutral snapshot model,
//! [`value`] the shared label rendering, [`counter`] and [`gauge`] the
//! metric types with their label-partitioned containers and local shadows,
//! [`registry`] the consistency-checked catalog of collectors, [`encoder`]
//! the two exposition encoders, and [`push`] the push-gateway request
//! builder.

pub mod atomic64;
pub mod counter;
pub mod desc;
pub mod encoder;
pub mod errors;
pub mod gauge;
pub mod lexical;
pub mod numtext;
pub mod proto;
pub mod push;
pub mod registry;
pub mod value;
