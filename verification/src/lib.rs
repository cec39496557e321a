//! The verified core of a desktop tool that finds files and folders by name.
//!
//! [`index`] files paths under their names and answers queries; [`score`] and
//! [`distance`] say how well a name answers a query, in the numbers of [`double`];
//! [`ranking`] puts results in order; [`surch`] is the search window, event by
//! event. What holds of the index as a whole stands in [`laws`], and what holds of
//! the window in [`surch::laws`].

pub mod distance;
pub mod double;
pub mod index;
pub mod laws;
pub mod paging;
pub mod path;
pub mod path_map;
pub mod ranking;
pub mod score;
pub mod skip;
pub mod surch;
pub mod text;
pub mod trie;
