//! Core logic of a periodic internet speed tester: HTTP message handling,
//! timestamp formatting and parsing, request framing and routing for the
//! built-in web server, the results file (writing, reading its rows, reading
//! its lines from the end), provider configuration, server ranking, transfer
//! figures and the pacing of the timed test loops, and the settings from
//! environment and command line.

pub mod bytes;
pub mod calendar;
pub mod numbers;
pub mod text;
pub mod timestamp;
pub mod http;
pub mod conn;
pub mod routes;
pub mod results;
pub mod provider;
pub mod options;
pub mod winsock;
pub mod ranking;
pub mod backward;
pub mod throughput;
pub mod serving;
pub mod pacing;
pub mod chunked;
