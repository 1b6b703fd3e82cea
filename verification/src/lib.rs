//! Day-view layout of calendar events: overlapping events are packed into
//! side-by-side columns and drawn as vector-graphic markup.
//!
//! The events are sorted by their start ([`order`]) and swept into bands
//! ([`matrix`]); the bands give every event a number of columns and a column
//! offset ([`positions`], and [`layout`] for both steps at once); the events
//! are drawn in their boxes on a grid of hours ([`svg`]) as a tree of
//! elements that is written out as markup ([`element`], [`text`]).
//! What holds of the bands of every day is proved in [`bands`], what holds
//! of the positions in [`positions`] and [`layout`].

pub mod bands;
pub mod element;
pub mod events;
pub mod layout;
pub mod matrix;
pub mod order;
pub mod positions;
pub mod svg;
pub mod text;
pub mod types;
