//! Ratings aggregation core: students rate courses, and the stored ratings
//! are projected on demand into a dense students-by-courses matrix.
//!
//! The [`store::Store`] holds the three entity kinds (students, courses,
//! ratings) with their uniqueness and referential invariants; the payload
//! format of a submission is defined in [`payload`]; the submission
//! protocol in [`submit`] replaces a student's whole rating set
//! all-or-nothing; [`matrix`] assembles the dense projection; [`routes`]
//! carries the narrow records the transport layer exchanges with the core;
//! and [`laws`] proves the properties that relate submission and assembly.

pub mod laws;
pub mod matrix;
pub mod payload;
pub mod routes;
pub mod store;
pub mod submit;
