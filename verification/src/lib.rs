//! `pglog`: parses a Postgres log written with `log_min_duration_statement`
//! enabled, fingerprints each logged statement, and groups the statements
//! by fingerprint for a "top slow queries" report.

pub mod text;
pub mod fingerprint;
pub mod parser;
pub mod aggregate;
pub mod fingerprint_laws;
pub mod literal_laws;
pub mod quote_laws;
pub mod idempotence_laws;
pub mod word_laws;
pub mod log_line_laws;
pub mod parser_laws;
