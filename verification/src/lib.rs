//! Verified core of a small social-networking backend.
//!
//! The crate models the relational store of the service (users, posts,
//! follow edges, post likes, sessions) as plain data with a well-formedness
//! invariant, and implements the request handlers as verified functions on
//! that state.  The central piece is the toggle engine: the atomic
//! insert-or-delete of a relationship edge together with the adjustment of
//! the denormalized counters on the affected rows.  Token signing goes
//! through the `jsonwebtoken` crate behind a small trusted boundary.

pub mod auth;
pub mod clock;
pub mod counting;
pub mod errors;
pub mod follow;
pub mod jwt;
pub mod like;
pub mod model;
pub mod post;
pub mod requests;
pub mod role;
pub mod users;
