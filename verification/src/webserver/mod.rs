//! What the socket to the client decides: how blocks are numbered on their
//! way out, and what the client's acknowledgements say of their way.

pub mod ws;
