use vstd::prelude::*;
use vstd::string::StringExecFns;

use crate::board::bit_set;

verus! {

/// A word realised on a board: where it starts, where it ends, and which
/// board positions it visits.
#[derive(Debug, Clone, PartialEq, Eq)]
pub struct BoardEncodedWord {
    /// The word as it was given.
    pub word: String,
    /// Board position of the first letter.
    pub start: u8,
    /// Board position of the last letter.
    pub end: u8,
    /// Bit `i` is set exactly when the word visits board position `i`.
    pub spots_filled: u16,
}

/// What the search needs to know of an encoded word.
#[derive(Debug, Clone, Copy, PartialEq, Eq, Structural)]
pub struct WordShape {
    pub start: u8,
    pub end: u8,
    pub spots_filled: u16,
}

/// The shape of an encoded word.
pub open spec fn shape_of(w: BoardEncodedWord) -> WordShape {
    WordShape { start: w.start, end: w.end, spots_filled: w.spots_filled }
}

/// The shapes of a sequence of encoded words, in the same order.
pub open spec fn shapes_of(words: Seq<BoardEncodedWord>) -> Seq<WordShape> {
    words.map_values(|w: BoardEncodedWord| shape_of(w))
}

/// How many binary digits `debug_spots_filled` writes for `v`: twelve, or
/// as many as `v` needs when that is more.
pub open spec fn debug_width(v: u16) -> nat {
    if v < 0x1000 {
        12
    } else if v < 0x2000 {
        13
    } else if v < 0x4000 {
        14
    } else if v < 0x8000 {
        15
    } else {
        16
    }
}

/// `v` written in binary with `n` digits, most significant first.
pub open spec fn binary_digits(v: u16, n: nat) -> Seq<char> {
    Seq::new(n, |i: int| if bit_set(v, n - 1 - i) { '1' } else { '0' })
}

impl BoardEncodedWord {
    /// Builds an encoded word from its parts.
    pub fn new(word: String, start: u8, end: u8, spots_filled: u16) -> (r: BoardEncodedWord)
        ensures
            r.word == word,
            r.start == start,
            r.end == end,
            r.spots_filled == spots_filled,
    {
        BoardEncodedWord { word, start, end, spots_filled }
    }

    /// The start, end and visited positions of the word.
    pub fn shape(&self) -> (r: WordShape)
        ensures
            r == shape_of(*self),
    {
        WordShape { start: self.start, end: self.end, spots_filled: self.spots_filled }
    }

    /// The visited positions as binary digits, position 0 last; at least
    /// twelve digits, padded with zeros on the left.
    pub fn debug_spots_filled(&self) -> (r: String)
        ensures
            r@ == binary_digits(self.spots_filled, debug_width(self.spots_filled)),
    {
        let v = self.spots_filled;
        let width: u16 = if v < 0x1000 {
            12
        } else if v < 0x2000 {
            13
        } else if v < 0x4000 {
            14
        } else if v < 0x8000 {
            15
        } else {
            16
        };
        let ghost n = width as nat;
        let mut out = String::new();
        let mut i: u16 = 0;
        while i < width
            invariant
                n == debug_width(v),
                width == n,
                i <= width,
                out@ == binary_digits(v, n).subrange(0, i as int),
            decreases width - i,
        {
            let b: u16 = width - 1 - i;
            proof {
                reveal_strlit("1");
                reveal_strlit("0");
                assert(binary_digits(v, n).subrange(0, i + 1) =~= binary_digits(v, n).subrange(0, i as int).push(
                    binary_digits(v, n)[i as int],
                ));
            }
            if (v >> b) & 1 == 1 {
                out.append("1");
            } else {
                out.append("0");
            }
            i += 1;
        }
        proof {
            assert(binary_digits(v, n).subrange(0, n as int) =~= binary_digits(v, n));
        }
        out
    }
}

} // verus!
