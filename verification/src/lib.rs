//! Candidate enumeration and move bookkeeping for the "mark points, draw
//! rectangles" grid puzzle: a rectangle may be drawn when three of its
//! corners are marked, the fourth is not, and its perimeter neither passes
//! through another marked point nor shares a unit segment with an earlier
//! rectangle.

pub mod geometry;
pub mod state;
pub mod rays;
pub mod rects;
pub mod candidates;
pub mod order;
pub mod score;
pub mod replay;
pub mod search;
pub mod anneal;
pub mod report;
