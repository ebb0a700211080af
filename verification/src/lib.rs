//! Core of a prefetch-streaming server for interactive applications.
//!
//! A client predicts which queries its user will issue next and when. From
//! that prediction, the state of the client's cache and the size of the
//! progressively encoded blocks of each query, the server decides which block
//! of which query to send next.
//!
//! Probabilities, utilities and bandwidths are fixed-point integers (see
//! [`fixed`]); times are whole milliseconds.

pub mod fixed;
pub mod arrays;
pub mod maps;
pub mod ds;
pub mod wire;
pub mod text;
pub mod manager;
pub mod apps;
pub mod scheduler;
pub mod webserver;
