//! Word encoding and chain search for the "Letter Boxed" puzzle.
//!
//! A board has four sides, each carrying a few letters. A word is playable
//! when all of its letters are on the board and no two consecutive letters
//! share a side. Playable words are encoded as a start position, an end
//! position and a mask of the positions they visit; the search then looks for
//! chains of such words that end where the next one starts and together visit
//! every position.
pub mod board;
pub mod encoded;
pub mod search;

pub use board::{Board, BoardError};
pub use encoded::{BoardEncodedWord, WordShape};
pub use search::{valid_permutations, ValidPermutations};
