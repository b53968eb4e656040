//! Decision core of a two-player pursuit game on a hexagonal grid: one
//! side (the blocker) permanently closes tiles, the other (the pig) tries
//! to reach a boundary exit before being fully enclosed.
//!
//! - [`posn`] — offset hex-grid coordinates and neighbor arithmetic,
//! - [`board`] — tiles and the bounded position-to-tile mapping with its
//!   placement rules,
//! - [`route`] — the mathematical model of escape routes that the
//!   pathfinding is specified against,
//! - [`game`] — the pig's shortest-route escape search and the turn state
//!   machine,
//! - [`maps`] — the classic rectangular map generator.
//!
//! Rendering and input handling live outside the library and talk to it
//! through plain values.

pub mod board;
pub mod game;
pub mod maps;
pub mod posn;
pub mod route;
