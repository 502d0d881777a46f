use vstd::prelude::*;

use itertools::Itertools;
use itertools::Permutations;
use std::ops::Range;

use crate::board::Board;
use crate::encoded::{shapes_of, BoardEncodedWord, WordShape};

verus! {

broadcast use vstd::seq_lib::group_filter_ensures;

/// itertools' generator of k-permutations, held as an opaque value.
#[verifier::external_type_specification]
#[verifier::external_body]
#[verifier::reject_recursive_types(I)]
pub struct ExPermutations<I: Iterator>(Permutations<I>);

/// The arrangements of indices that a generator has still to yield, in the
/// order in which it yields them.
pub uninterp spec fn arrangements_left(g: Permutations<Range<usize>>) -> Seq<Seq<usize>>;

/// `p` lists `k` distinct indices below `n`.
pub open spec fn is_arrangement(p: Seq<usize>, n: nat, k: nat) -> bool {
    &&& p.len() == k
    &&& p.no_duplicates()
    &&& forall|i: int| 0 <= i < p.len() ==> p[i] < n
}

/// Relies on `Itertools::permutations` on the range `0..n`: it yields each
/// sequence of `k` distinct indices below `n` exactly once (the empty one
/// when `k` is 0, none when `k > n`).
#[verifier::external_body]
fn arrangements(n: usize, k: usize) -> (r: Permutations<Range<usize>>)
    ensures
        arrangements_left(r).no_duplicates(),
        forall|p: Seq<usize>| #[trigger]
            arrangements_left(r).contains(p) <==> is_arrangement(p, n as nat, k as nat),
{
    (0..n).permutations(k)
}

/// Relies on `Iterator::next` of `itertools::Permutations`: it hands out the
/// next arrangement, and `None` for good once all have been handed out.
#[verifier::external_body]
fn next_arrangement(g: &mut Permutations<Range<usize>>) -> (r: Option<Vec<usize>>)
    ensures
        arrangements_left(*old(g)).len() > 0 ==> {
            &&& r is Some
            &&& r->0@ == arrangements_left(*old(g))[0]
            &&& arrangements_left(*final(g)) == arrangements_left(*old(g)).drop_first()
        },
        arrangements_left(*old(g)).len() == 0 ==> {
            &&& r is None
            &&& arrangements_left(*final(g)).len() == 0
        },
{
    g.next()
}

/// Each word of the chain `p` ends where the next one starts.
pub open spec fn chains(ws: Seq<WordShape>, p: Seq<usize>) -> bool {
    forall|i: int| 1 <= i < p.len() ==> ws[p[i - 1] as int].end == ws[#[trigger] p[i] as int].start
}

/// The bitwise OR of the visited positions of the words of `p`.
pub open spec fn coverage(ws: Seq<WordShape>, p: Seq<usize>) -> u16
    decreases p.len(),
{
    if p.len() == 0 {
        0
    } else {
        coverage(ws, p.drop_last()) | ws[p.last() as int].spots_filled
    }
}

/// `p` chains and together visits exactly the positions of `full`.
pub open spec fn is_solution(ws: Seq<WordShape>, full: u16, p: Seq<usize>) -> bool {
    chains(ws, p) && coverage(ws, p) == full
}

/// The test that keeps the solutions among the arrangements.
pub open spec fn solution_test(ws: Seq<WordShape>, full: u16) -> spec_fn(Seq<usize>) -> bool {
    |p: Seq<usize>| is_solution(ws, full, p)
}

/// Every solution of length `k`: distinct word indices that chain and cover
/// the mask `full`.
pub open spec fn search_solutions(ws: Seq<WordShape>, k: nat, full: u16) -> Set<Seq<usize>> {
    Set::new(|p: Seq<usize>| is_arrangement(p, ws.len(), k) && is_solution(ws, full, p))
}

/// Checks whether the words of `p` chain and cover `full`, chaining first.
fn check_candidate(ws: &Vec<WordShape>, full: u16, p: &Vec<usize>) -> (r: bool)
    requires
        forall|i: int| 0 <= i < p@.len() ==> p@[i] < ws@.len(),
    ensures
        r == is_solution(ws@, full, p@),
{
    let mut i: usize = 1;
    while i < p.len()
        invariant
            forall|i: int| 0 <= i < p@.len() ==> p@[i] < ws@.len(),
            1 <= i,
            forall|j: int| 1 <= j < i && j < p@.len() ==> ws@[p@[j - 1] as int].end == ws@[#[trigger] p@[j] as int].start,
        decreases p@.len() - i,
    {
        if ws[p[i - 1]].end != ws[p[i]].start {
            return false;
        }
        i += 1;
    }
    let mut acc: u16 = 0;
    let mut j: usize = 0;
    while j < p.len()
        invariant
            forall|i: int| 0 <= i < p@.len() ==> p@[i] < ws@.len(),
            j <= p@.len(),
            acc == coverage(ws@, p@.subrange(0, j as int)),
        decreases p@.len() - j,
    {
        proof {
            assert(p@.subrange(0, j + 1).drop_last() =~= p@.subrange(0, j as int));
        }
        acc = acc | ws[p[j]].spots_filled;
        j += 1;
    }
    proof {
        assert(p@.subrange(0, p@.len() as int) =~= p@);
    }
    acc == full
}

/// Filtering a sequence without duplicates leaves none.
proof fn lemma_filter_distinct(s: Seq<Seq<usize>>, test: spec_fn(Seq<usize>) -> bool)
    requires
        s.no_duplicates(),
    ensures
        s.filter(test).no_duplicates(),
    decreases s.len(),
{
    reveal(Seq::filter);
    if s.len() > 0 {
        let rest = s.drop_last();
        assert(rest.no_duplicates());
        lemma_filter_distinct(rest, test);
        if rest.filter(test).contains(s.last()) {
            rest.lemma_filter_contains_rev(test, s.last());
        }
    }
}

/// Searches `valid_words` for chains of `max_words` distinct words that
/// together visit every position of `board`. The solutions come out lazily,
/// in the order in which the arrangements of indices are generated.
pub fn valid_permutations(valid_words: &[BoardEncodedWord], max_words: usize, board: &Board) -> (r:
    ValidPermutations)
    requires
        board.wf(),
    ensures
        r.wf(),
        r.shapes() == shapes_of(valid_words@),
        r.full_mask() == board.full_mask(),
        r.pending().no_duplicates(),
        r.pending().to_set() == search_solutions(r.shapes(), max_words as nat, r.full_mask()),
{
    let mut shapes: Vec<WordShape> = Vec::new();
    let mut i: usize = 0;
    while i < valid_words.len()
        invariant
            i <= valid_words@.len(),
            shapes@ == shapes_of(valid_words@.subrange(0, i as int)),
        decreases valid_words@.len() - i,
    {
        proof {
            assert(valid_words@.subrange(0, i + 1) =~= valid_words@.subrange(0, i as int).push(valid_words@[i as int]));
        }
        shapes.push(valid_words[i].shape());
        assert(shapes@ =~= shapes_of(valid_words@.subrange(0, i + 1)));
        i += 1;
    }
    proof {
        assert(valid_words@.subrange(0, i as int) =~= valid_words@);
    }
    let full_mask = board.full_mask_value();
    let candidates = arrangements(shapes.len(), max_words);
    let r = ValidPermutations { shapes, full_mask, candidates };
    proof {
        let left = arrangements_left(r.candidates);
        let test = solution_test(r.shapes@, r.full_mask);
        lemma_filter_distinct(left, test);
        assert forall|p: Seq<usize>| #[trigger] r.pending().to_set().contains(p)
            <==> search_solutions(r.shapes(), max_words as nat, r.full_mask()).contains(p) by {
            if left.filter(test).contains(p) {
                left.lemma_filter_contains_rev(test, p);
                let j = choose|j: int| 0 <= j < left.filter(test).len() && left.filter(test)[j] == p;
                assert(test(left.filter(test)[j]));
            }
            if search_solutions(r.shapes(), max_words as nat, r.full_mask()).contains(p) {
                assert(left.contains(p));
                let j = choose|j: int| 0 <= j < left.len() && left[j] == p;
                assert(left.filter(test).contains(left[j]));
            }
        }
        assert(r.pending().to_set() =~= search_solutions(r.shapes(), max_words as nat, r.full_mask()));
    }
    r
}

/// The solutions of a search, produced one at a time on demand. Each
/// solution is a list of indices into the words that the search was given.
pub struct ValidPermutations {
    shapes: Vec<WordShape>,
    full_mask: u16,
    candidates: Permutations<Range<usize>>,
}

impl ValidPermutations {
    /// The shapes of the words searched.
    pub closed spec fn shapes(&self) -> Seq<WordShape> {
        self.shapes@
    }

    /// The positions a solution must cover.
    pub closed spec fn full_mask(&self) -> u16 {
        self.full_mask
    }

    /// The solutions still to come, in order.
    pub closed spec fn pending(&self) -> Seq<Seq<usize>> {
        arrangements_left(self.candidates).filter(solution_test(self.shapes@, self.full_mask))
    }

    /// Every arrangement still to be generated indexes the searched words.
    pub closed spec fn wf(&self) -> bool {
        forall|p: Seq<usize>| #[trigger] arrangements_left(self.candidates).contains(p)
            ==> forall|i: int| 0 <= i < p.len() ==> p[i] < self.shapes@.len()
    }

    /// The next solution, or `None` once all have been produced.
    pub fn next_solution(&mut self) -> (r: Option<Vec<usize>>)
        requires
            old(self).wf(),
        ensures
            final(self).wf(),
            final(self).shapes() == old(self).shapes(),
            final(self).full_mask() == old(self).full_mask(),
            old(self).pending().len() > 0 ==> {
                &&& r is Some
                &&& r->0@ == old(self).pending()[0]
                &&& final(self).pending() == old(self).pending().drop_first()
            },
            old(self).pending().len() == 0 ==> {
                &&& r is None
                &&& final(self).pending().len() == 0
            },
    {
        loop
            invariant
                self.wf(),
                self.shapes == old(self).shapes,
                self.full_mask == old(self).full_mask,
                self.pending() == old(self).pending(),
            decreases arrangements_left(self.candidates).len(),
        {
            let ghost before = arrangements_left(self.candidates);
            let ghost test = solution_test(self.shapes@, self.full_mask);
            match next_arrangement(&mut self.candidates) {
                None => {
                    assert(before =~= Seq::<Seq<usize>>::empty());
                    return None;
                },
                Some(p) => {
                    proof {
                        assert(before =~= seq![p@] + before.drop_first());
                        before.drop_first().lemma_filter_prepend(p@, test);
                        assert(before.contains(p@));
                        assert forall|q: Seq<usize>| #[trigger] arrangements_left(self.candidates).contains(q)
                            implies forall|i: int| 0 <= i < q.len() ==> q[i] < self.shapes@.len() by {
                            let j = choose|j: int| 0 <= j < before.drop_first().len() && before.drop_first()[j] == q;
                            assert(before[j + 1] == q);
                            assert(before.contains(q));
                        }
                    }
                    if check_candidate(&self.shapes, self.full_mask, &p) {
                        return Some(p);
                    }
                },
            }
        }
    }
}

/// Every solution a search still has to produce covers the whole board: the
/// OR of the visited positions of its words is the board's full mask.
pub proof fn lemma_solutions_cover(it: ValidPermutations, p: Seq<usize>)
    requires
        it.pending().contains(p),
    ensures
        coverage(it.shapes(), p) == it.full_mask(),
{
    let j = choose|j: int| 0 <= j < it.pending().len() && it.pending()[j] == p;
    assert(solution_test(it.shapes(), it.full_mask())(it.pending()[j]));
}

/// Every solution a search still has to produce is a chain: each word ends
/// where the next one starts.
pub proof fn lemma_solutions_chain(it: ValidPermutations, p: Seq<usize>)
    requires
        it.pending().contains(p),
    ensures
        chains(it.shapes(), p),
{
    let j = choose|j: int| 0 <= j < it.pending().len() && it.pending()[j] == p;
    assert(solution_test(it.shapes(), it.full_mask())(it.pending()[j]));
}

/// The indices below `n` form a finite set of at most `n` elements.
proof fn lemma_indices_below(n: nat)
    ensures
        Set::new(|x: usize| x < n).finite(),
        Set::new(|x: usize| x < n).len() <= n,
    decreases n,
{
    if n == 0 {
        assert(Set::new(|x: usize| x < n) =~= Set::<usize>::empty());
    } else {
        let m = (n - 1) as nat;
        lemma_indices_below(m);
        if m <= usize::MAX {
            assert(Set::new(|x: usize| x < n) =~= Set::new(|x: usize| x < m).insert(m as usize));
        } else {
            assert(Set::new(|x: usize| x < n) =~= Set::new(|x: usize| x < m));
        }
    }
}

/// A search over no words, or for chains longer than the number of words,
/// has no solution.
pub proof fn lemma_search_empty(words: Seq<BoardEncodedWord>, max_words: nat, board: Board)
    requires
        board.wf(),
        words.len() == 0 || max_words > words.len(),
    ensures
        search_solutions(shapes_of(words), max_words, board.full_mask()) == Set::<Seq<usize>>::empty(),
{
    let ws = shapes_of(words);
    let full = board.full_mask();
    let sh = (16 - board.size()) as u16;
    assert(sh <= 12 ==> 0xffffu16 >> sh != 0) by (bit_vector);
    assert forall|p: Seq<usize>| !search_solutions(ws, max_words, full).contains(p) by {
        if is_arrangement(p, ws.len(), max_words) {
            if max_words > ws.len() {
                let below = Set::new(|x: usize| x < ws.len());
                lemma_indices_below(ws.len());
                p.unique_seq_to_set();
                assert(p.to_set().subset_of(below));
                vstd::set_lib::lemma_len_subset(p.to_set(), below);
            } else {
                assert(p.len() == 0);
                assert(coverage(ws, p) == 0);
            }
        }
    }
    assert(search_solutions(ws, max_words, full) =~= Set::<Seq<usize>>::empty());
}

} // verus!
