use vstd::prelude::*;

use crate::encoded::BoardEncodedWord;

verus! {

/// Number of sides of a board.
pub const SIDES: usize = 4;

/// Number of letters per side of the classic board.
pub const CLASSIC_SIDE_LEN: usize = 3;

/// Largest number of letters per side: a board never has more than 16
/// positions, so that a `u16` can hold its coverage mask.
pub const MAX_SIDE_LEN: usize = 4;

/// Whether a character counts as white space.
pub uninterp spec fn white_space(c: char) -> bool;

/// Relies on `char::is_whitespace`: whether `c` has the Unicode `White_Space`
/// property, which depends on `c` alone.
#[verifier::external_body]
fn is_blank(c: char) -> (r: bool)
    ensures
        r == white_space(c),
{
    c.is_whitespace()
}

/// The letters of a board description: its characters, white space left out.
pub open spec fn board_letters(s: Seq<char>) -> Seq<char> {
    s.filter(|c: char| !white_space(c))
}

/// `i` is the first index at which `c` occurs in `s`.
pub open spec fn is_first_index(s: Seq<char>, c: char, i: int) -> bool {
    &&& 0 <= i < s.len()
    &&& s[i] == c
    &&& forall|j: int| 0 <= j < i ==> s[j] != c
}

/// The first index of `c` in `s`, or -1 when `c` does not occur in `s`.
pub open spec fn first_index(s: Seq<char>, c: char) -> int {
    if exists|i: int| is_first_index(s, c, i) {
        choose|i: int| is_first_index(s, c, i)
    } else {
        -1
    }
}

/// Whether bit `b` of `m` is set.
pub open spec fn bit_set(m: u16, b: int) -> bool {
    (m >> (b as u16)) & 1 == 1
}

/// The bitwise OR of `1 << p` over the positions `p` of `ps`.
pub open spec fn positions_mask(ps: Seq<int>) -> u16
    decreases ps.len(),
{
    if ps.len() == 0 {
        0
    } else {
        positions_mask(ps.drop_last()) | (1u16 << (ps.last() as u16))
    }
}

/// The mask whose `n` lowest bits are set.
pub open spec fn low_bits(n: nat) -> u16 {
    0xffffu16 >> ((16 - n) as u16)
}

/// Bit `b` of the mask of `ps` is set exactly when `b` is one of the
/// positions of `ps`.
proof fn lemma_mask_bits(ps: Seq<int>, b: int)
    requires
        forall|k: int| 0 <= k < ps.len() ==> 0 <= #[trigger] ps[k] < 16,
        0 <= b < 16,
    ensures
        bit_set(positions_mask(ps), b) <==> ps.contains(b),
    decreases ps.len(),
{
    let bb = b as u16;
    if ps.len() == 0 {
        assert((0u16 >> bb) & 1 != 1) by (bit_vector);
    } else {
        let rest = ps.drop_last();
        lemma_mask_bits(rest, b);
        let m = positions_mask(rest);
        let x = ps.last() as u16;
        assert(x < 16 && bb < 16 ==> ((((m | (1u16 << x)) >> bb) & 1 == 1) <==> ((m >> bb) & 1 == 1
            || bb == x))) by (bit_vector);
        assert(ps =~= rest.push(ps.last()));
        if rest.contains(b) {
            let j = choose|j: int| 0 <= j < rest.len() && rest[j] == b;
            assert(ps[j] == b);
        }
        if ps.contains(b) && ps.last() != b {
            let j = choose|j: int| 0 <= j < ps.len() && ps[j] == b;
            assert(rest[j] == b);
        }
    }
}

/// Why a board could not be built.
#[derive(Debug, Clone, Copy, PartialEq, Eq)]
pub enum BoardError {
    /// Sides must carry between one and four letters.
    UnsupportedSideLength { side_len: usize },
    /// The description does not hold one letter per board position.
    WrongLetterCount { expected: usize, found: usize },
}

/// A board: four sides of `side_len` letters each. Position `g * side_len + j`
/// is letter `j` of side `g`.
#[derive(Debug)]
pub struct Board {
    letters: Vec<char>,
    side_len: usize,
}

impl Board {
    /// The board's letters, side after side.
    pub closed spec fn letters(&self) -> Seq<char> {
        self.letters@
    }

    /// The number of letters on each side.
    pub closed spec fn side_len(&self) -> nat {
        self.side_len as nat
    }

    /// Each of the four sides holds `side_len` letters, between one and four.
    pub open spec fn wf(&self) -> bool {
        &&& 1 <= self.side_len() <= MAX_SIDE_LEN
        &&& self.letters().len() == SIDES * self.side_len()
    }

    /// The number of positions on the board.
    pub open spec fn size(&self) -> nat {
        self.letters().len()
    }

    /// The mask with one bit set for each board position.
    pub open spec fn full_mask(&self) -> u16 {
        low_bits(self.size())
    }

    /// The side that holds position `pos`.
    pub open spec fn side_of(&self, pos: int) -> int {
        pos / (self.side_len() as int)
    }

    /// The positions that walking `w` on the board visits: for each
    /// character, its first position, or -1 when it is not on the board.
    pub open spec fn walk(&self, w: Seq<char>) -> Seq<int> {
        w.map_values(|c: char| first_index(self.letters(), c))
    }

    /// `w` can be played: it is not empty, each of its characters is on the
    /// board, and no two consecutive characters lie on the same side.
    pub open spec fn realizable(&self, w: Seq<char>) -> bool {
        let p = self.walk(w);
        &&& w.len() > 0
        &&& forall|k: int| 0 <= k < p.len() ==> p[k] >= 0
        &&& forall|k: int| 1 <= k < p.len() ==> self.side_of(p[k - 1]) != self.side_of(#[trigger] p[k])
    }

    /// Builds the classic board of four sides of three letters from `s`,
    /// white space ignored.
    pub fn new(s: &str) -> (r: Result<Board, BoardError>)
        ensures
            match r {
                Ok(b) => {
                    &&& board_letters(s@).len() == SIDES * CLASSIC_SIDE_LEN
                    &&& b.wf()
                    &&& b.letters() == board_letters(s@)
                    &&& b.side_len() == CLASSIC_SIDE_LEN
                },
                Err(e) => {
                    &&& board_letters(s@).len() != SIDES * CLASSIC_SIDE_LEN
                    &&& e == BoardError::WrongLetterCount {
                        expected: (SIDES * CLASSIC_SIDE_LEN) as usize,
                        found: board_letters(s@).len() as usize,
                    }
                },
            },
    {
        Board::with_side_len(s, CLASSIC_SIDE_LEN)
    }

    /// Builds a board of four sides of `side_len` letters from `s`, white
    /// space ignored.
    pub fn with_side_len(s: &str, side_len: usize) -> (r: Result<Board, BoardError>)
        ensures
            match r {
                Ok(b) => {
                    &&& 1 <= side_len <= MAX_SIDE_LEN
                    &&& board_letters(s@).len() == SIDES * side_len
                    &&& b.wf()
                    &&& b.letters() == board_letters(s@)
                    &&& b.side_len() == side_len
                },
                Err(BoardError::UnsupportedSideLength { side_len: l }) => {
                    &&& l == side_len
                    &&& !(1 <= side_len <= MAX_SIDE_LEN)
                },
                Err(BoardError::WrongLetterCount { expected, found }) => {
                    &&& 1 <= side_len <= MAX_SIDE_LEN
                    &&& expected == SIDES * side_len
                    &&& found == board_letters(s@).len()
                    &&& found != expected
                },
            },
    {
        if side_len == 0 || side_len > MAX_SIDE_LEN {
            return Err(BoardError::UnsupportedSideLength { side_len });
        }
        let n = s.unicode_len();
        let mut letters: Vec<char> = Vec::new();
        let mut i: usize = 0;
        while i < n
            invariant
                n == s@.len(),
                i <= n,
                letters@ == board_letters(s@.subrange(0, i as int)),
            decreases n - i,
        {
            let c = s.get_char(i);
            proof {
                assert(s@.subrange(0, i + 1) =~= s@.subrange(0, i as int).push(c));
                s@.subrange(0, i as int).lemma_filter_push(c, |c: char| !white_space(c));
            }
            if !is_blank(c) {
                letters.push(c);
            }
            i += 1;
        }
        proof {
            assert(s@.subrange(0, n as int) =~= s@);
        }
        if letters.len() != SIDES * side_len {
            return Err(BoardError::WrongLetterCount { expected: SIDES * side_len, found: letters.len() });
        }
        Ok(Board { letters, side_len })
    }

    /// The letters of side `g`, in order.
    pub fn side(&self, g: usize) -> (r: Vec<char>)
        requires
            self.wf(),
            g < SIDES,
        ensures
            r@ == self.letters().subrange(g * self.side_len(), (g + 1) * self.side_len()),
    {
        proof {
            assert(g * self.side_len + self.side_len <= SIDES * self.side_len) by (nonlinear_arith)
                requires
                    g < SIDES,
            ;
        }
        let lo = g * self.side_len;
        let mut r: Vec<char> = Vec::new();
        let mut j: usize = 0;
        while j < self.side_len
            invariant
                self.wf(),
                g < SIDES,
                lo == g * self.side_len,
                lo + self.side_len <= self.letters@.len(),
                j <= self.side_len,
                r@ == self.letters@.subrange(lo as int, lo + j),
            decreases self.side_len - j,
        {
            proof {
                assert(self.letters@.subrange(lo as int, lo + j + 1) =~= self.letters@.subrange(lo as int, lo + j).push(
                    self.letters@[lo + j],
                ));
            }
            r.push(self.letters[lo + j]);
            j += 1;
        }
        proof {
            assert((g + 1) * self.side_len == lo + self.side_len) by (nonlinear_arith)
                requires
                    lo == g * self.side_len,
            ;
        }
        r
    }

    /// The mask with one bit set for each board position.
    pub fn full_mask_value(&self) -> (r: u16)
        requires
            self.wf(),
        ensures
            r == self.full_mask(),
    {
        0xffffu16 >> ((16 - self.letters.len()) as u16)
    }

    /// The first position that holds `c`.
    fn position_of(&self, c: char) -> (r: Option<usize>)
        requires
            self.wf(),
        ensures
            match r {
                Some(p) => p == first_index(self.letters(), c) && p < self.size(),
                None => first_index(self.letters(), c) == -1,
            },
    {
        let mut j: usize = 0;
        while j < self.letters.len()
            invariant
                j <= self.letters@.len(),
                forall|k: int| 0 <= k < j ==> self.letters@[k] != c,
            decreases self.letters@.len() - j,
        {
            if self.letters[j] == c {
                let ghost s = self.letters@;
                assert(is_first_index(s, c, j as int));
                let ghost chosen = choose|i: int| is_first_index(s, c, i);
                assert(chosen == j);
                return Some(j);
            }
            j += 1;
        }
        assert(!exists|i: int| is_first_index(self.letters@, c, i));
        None
    }

    /// Encodes `word` on the board, or returns `None` when it cannot be
    /// played. Each character takes the first position that holds it, sides
    /// searched in order.
    pub fn encode_word(&self, word: &str) -> (r: Option<BoardEncodedWord>)
        requires
            self.wf(),
        ensures
            match r {
                Some(e) => {
                    &&& self.realizable(word@)
                    &&& e.word@ == word@
                    &&& e.start as int == self.walk(word@)[0]
                    &&& e.end as int == self.walk(word@).last()
                    &&& e.spots_filled == positions_mask(self.walk(word@))
                },
                None => !self.realizable(word@),
            },
    {
        let ghost w = word@;
        let ghost p = self.walk(w);
        let n = word.unicode_len();
        if n == 0 {
            return None;
        }
        let mut start: u8 = 0;
        let mut end: u8 = 0;
        let mut spots_filled: u16 = 0;
        let mut previous_side: usize = 0;
        let mut i: usize = 0;
        while i < n
            invariant
                self.wf(),
                n == w.len(),
                w == word@,
                p == self.walk(w),
                0 < n,
                i <= n,
                forall|k: int| 0 <= k < i ==> p[k] >= 0,
                forall|k: int| 1 <= k < i ==> self.side_of(p[k - 1]) != self.side_of(#[trigger] p[k]),
                i > 0 ==> start as int == p[0],
                i > 0 ==> end as int == p[i - 1],
                i > 0 ==> previous_side as int == self.side_of(p[i - 1]),
                spots_filled == positions_mask(p.subrange(0, i as int)),
            decreases n - i,
        {
            let c = word.get_char(i);
            let pos = match self.position_of(c) {
                Some(pos) => pos,
                None => {
                    assert(p[i as int] < 0);
                    return None;
                },
            };
            assert(p[i as int] == pos);
            let side = pos / self.side_len;
            if i > 0 && side == previous_side {
                assert(self.side_of(p[i - 1]) == self.side_of(p[i as int]));
                return None;
            }
            if i == 0 {
                start = pos as u8;
            }
            end = pos as u8;
            proof {
                assert(p.subrange(0, i + 1).drop_last() =~= p.subrange(0, i as int));
            }
            spots_filled = spots_filled | (1u16 << (pos as u16));
            previous_side = side;
            i += 1;
        }
        proof {
            assert(p.subrange(0, n as int) =~= p);
        }
        Some(BoardEncodedWord { word: word.to_owned(), start, end, spots_filled })
    }
}

/// Reading an encoding back agrees with walking the word on the board: every
/// position of a playable word is on the board, and bit `b` of its mask is set
/// exactly when the walk visits position `b`. (The start and end of the
/// encoding are the first and last positions of the walk.)
pub proof fn lemma_encoding_matches_walk(board: Board, w: Seq<char>)
    requires
        board.wf(),
        board.realizable(w),
    ensures
        forall|k: int| 0 <= k < w.len() ==> 0 <= #[trigger] board.walk(w)[k] < board.size(),
        forall|b: int| 0 <= b < 16 ==> (bit_set(positions_mask(board.walk(w)), b)
            <==> board.walk(w).contains(b)),
        forall|b: int| board.size() <= b < 16 ==> !bit_set(positions_mask(board.walk(w)), b),
{
    let p = board.walk(w);
    assert forall|k: int| 0 <= k < w.len() implies 0 <= #[trigger] p[k] < board.size() by {
        assert(p[k] >= 0);
        assert(exists|i: int| is_first_index(board.letters(), w[k], i));
    }
    assert forall|b: int| 0 <= b < 16 implies (bit_set(positions_mask(p), b) <==> p.contains(b)) by {
        lemma_mask_bits(p, b);
    }
    assert forall|b: int| board.size() <= b < 16 implies !bit_set(positions_mask(p), b) by {
        lemma_mask_bits(p, b);
        if p.contains(b) {
            let j = choose|j: int| 0 <= j < p.len() && p[j] == b;
            assert(p[j] < board.size());
        }
    }
}

/// A word with two consecutive characters on the same side cannot be played.
pub proof fn lemma_same_side_rejected(board: Board, w: Seq<char>, k: int)
    requires
        board.wf(),
        1 <= k < w.len(),
        first_index(board.letters(), w[k - 1]) >= 0,
        first_index(board.letters(), w[k]) >= 0,
        board.side_of(first_index(board.letters(), w[k - 1])) == board.side_of(
            first_index(board.letters(), w[k]),
        ),
    ensures
        !board.realizable(w),
{
    assert(board.walk(w)[k - 1] == first_index(board.letters(), w[k - 1]));
    assert(board.walk(w)[k] == first_index(board.letters(), w[k]));
}

/// A word with a character that is on no side cannot be played.
pub proof fn lemma_absent_letter_rejected(board: Board, w: Seq<char>, k: int)
    requires
        board.wf(),
        0 <= k < w.len(),
        !board.letters().contains(w[k]),
    ensures
        !board.realizable(w),
{
    if exists|i: int| is_first_index(board.letters(), w[k], i) {
        let i = choose|i: int| is_first_index(board.letters(), w[k], i);
        assert(board.letters()[i] == w[k]);
    }
    assert(board.walk(w)[k] == -1);
}

} // verus!
