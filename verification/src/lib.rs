//! Verified solvers for a set of ten puzzle quests.
//!
//! Every quest lives in a module of its own. The executable functions carry
//! contracts over mathematical models of their inputs, and the laws that
//! relate them are stated as proof functions beside them.
//!
//! - `quest1`: walking along a list of names.
//! - `quest2`: arithmetic on pairs of whole numbers, and a picture.
//! - `quest3`: sums and counts over the sizes of crates.
//! - `quest4`: reading rows of gears.
//! - `quest5`: swords told by their fishbones.
//! - `quest6`: novices and their mentors in a row of knights.
//! - `quest7`: names that follow rules.
//! - `quest8`: threads strung between nails on a circle.
//! - `quest9`: families of dragonducks, told by their DNA.
//! - `quest10`: a dragon that pursues sheep on a board.
//! - `text`: reading text as bytes, shared by the quests.

pub mod quest1;
pub mod quest10;
pub mod quest2;
pub mod quest3;
pub mod quest4;
pub mod quest5;
pub mod quest6;
pub mod quest7;
pub mod quest8;
pub mod quest9;
pub mod text;
