//! The backtracking search that grows a box row by row until it is done or
//! every way on is closed.

use crate::lexicon::Lexicon;
use crate::word_box::{column, Grid, WordBox};
use crate::words::{lemma_matching_fits, lemma_matching_len, matching, Word};
use std::collections::VecDeque;
use vstd::prelude::*;

verus! {

/// What the next row of `g` has to begin with: for a symmetric box the
/// characters that the columns placed so far hold at the position of the
/// next row, for any other box nothing.
pub open spec fn next_prefix(g: Grid) -> Word {
    column(g.cols, g.rows.len() as int)
}

/// Those of `cands` that `g` admits as its next row, in their order.
pub open spec fn admitted(g: Grid, words: Seq<Word>, cands: Seq<Word>) -> Seq<Word> {
    cands.filter(|w: Word| g.admits(words, w))
}

/// The rows by which `g` can grow, in the order of the dictionary: the words
/// as long as the box is wide that begin as the next row has to and that the
/// box admits.
pub open spec fn moves(g: Grid, words: Seq<Word>) -> Seq<Word> {
    admitted(g, words, matching(words, next_prefix(g), g.col_dim))
}

/// The finished box that the search reaches from `g`: `g` itself when it is
/// done, else the first one reached from a box that grows `g` by one of its
/// moves, the moves being tried from the last to the first.
pub open spec fn search(g: Grid, words: Seq<Word>) -> Option<Grid>
    decreases g.row_dim - g.rows.len(), 1nat, 0nat,
{
    if g.is_done() {
        Some(g)
    } else if g.rows.len() > g.row_dim {
        None
    } else {
        search_moves(g, moves(g, words), words)
    }
}

/// The finished box that the search reaches from `g` grown by one of
/// `cands`, tried from the last to the first.
pub open spec fn search_moves(g: Grid, cands: Seq<Word>, words: Seq<Word>) -> Option<Grid>
    decreases g.row_dim - g.rows.len(), 0nat, cands.len(),
{
    if cands.len() == 0 || g.rows.len() >= g.row_dim {
        None
    } else {
        match search(g.add(cands.last()), words) {
            Some(done) => Some(done),
            None => search_moves(g, cands.drop_last(), words),
        }
    }
}

/// The finished box that the search reaches from the first of `frontier`
/// from which it reaches any.
pub open spec fn first_found(frontier: Seq<Grid>, words: Seq<Word>) -> Option<Grid>
    decreases frontier.len(),
{
    if frontier.len() == 0 {
        None
    } else {
        match search(frontier.first(), words) {
            Some(done) => Some(done),
            None => first_found(frontier.drop_first(), words),
        }
    }
}

/// The finished box that the plain descent reaches from `g`: `g` itself
/// when it is done, else the first one reached from a box that grows `g` by
/// a word as long as the box is wide that the box admits, the words being
/// tried in the order of the dictionary.
pub open spec fn solution(g: Grid, words: Seq<Word>) -> Option<Grid>
    decreases g.row_dim - g.rows.len(), 1nat, 0nat,
{
    if g.is_done() {
        Some(g)
    } else if g.rows.len() > g.row_dim {
        None
    } else {
        solution_among(
            g,
            admitted(g, words, matching(words, Seq::<char>::empty(), g.col_dim)),
            words,
        )
    }
}

/// The finished box that the plain descent reaches from `g` grown by one of
/// `cands`, tried from the first to the last.
pub open spec fn solution_among(g: Grid, cands: Seq<Word>, words: Seq<Word>) -> Option<Grid>
    decreases g.row_dim - g.rows.len(), 0nat, cands.len(),
{
    if cands.len() == 0 || g.rows.len() >= g.row_dim {
        None
    } else {
        match solution(g.add(cands.first()), words) {
            Some(done) => Some(done),
            None => solution_among(g, cands.drop_first(), words),
        }
    }
}

/// The square symmetric box of `dim` rows whose first row and first column
/// are `w`.
pub open spec fn seeded(dim: nat, w: Word) -> Grid {
    Grid { row_dim: dim, col_dim: dim, rows: seq![w], cols: seq![w], is_symmetric: true }
}

/// The words that seed the symmetric searches for boxes of `dim` rows:
/// the words of `dim` characters, in the order of the dictionary.
pub open spec fn seeds(words: Seq<Word>, dim: nat) -> Seq<Word> {
    matching(words, Seq::<char>::empty(), dim)
}

/// The boxes of a frontier as mathematical values.
pub open spec fn grids(boxes: Seq<WordBox>) -> Seq<Grid> {
    boxes.map_values(|b: WordBox| b@)
}

/// The outcome of a search as a mathematical value.
pub open spec fn found_grid(found: Option<WordBox>) -> Option<Grid> {
    match found {
        Some(b) => Some(b@),
        None => None,
    }
}

/// The number of boxes in a tree of the given depth in which every box has
/// `fan` successors.
spec fn tree_size(depth: nat, fan: nat) -> nat
    decreases depth,
{
    if depth == 0 {
        1
    } else {
        1 + fan * tree_size((depth - 1) as nat, fan)
    }
}

/// A bound on the number of boxes that the search visits from `g`.
spec fn weight(g: Grid, fan: nat) -> nat {
    tree_size((g.row_dim - g.rows.len()) as nat, fan)
}

/// A bound on the number of boxes that the search visits from a frontier.
spec fn total_weight(frontier: Seq<Grid>, fan: nat) -> nat
    decreases frontier.len(),
{
    if frontier.len() == 0 {
        0
    } else {
        weight(frontier.first(), fan) + total_weight(frontier.drop_first(), fan)
    }
}

proof fn lemma_admitted_push(g: Grid, words: Seq<Word>, cands: Seq<Word>, w: Word)
    ensures
        admitted(g, words, cands.push(w)) == if g.admits(words, w) {
            admitted(g, words, cands).push(w)
        } else {
            admitted(g, words, cands)
        },
{
    cands.lemma_filter_push(w, |w: Word| g.admits(words, w));
}

proof fn lemma_admitted_len(g: Grid, words: Seq<Word>, cands: Seq<Word>)
    ensures
        admitted(g, words, cands).len() <= cands.len(),
{
    cands.lemma_filter_len(|w: Word| g.admits(words, w));
}

/// Putting a box in front of a frontier puts its outcome in front of the
/// frontier's, and its weight on top.
proof fn lemma_push_front(child: Grid, frontier: Seq<Grid>, words: Seq<Word>, fan: nat)
    ensures
        first_found(seq![child] + frontier, words) == match search(child, words) {
            Some(done) => Some(done),
            None => first_found(frontier, words),
        },
        total_weight(seq![child] + frontier, fan) == weight(child, fan) + total_weight(
            frontier,
            fan,
        ),
{
    let grown = seq![child] + frontier;
    assert(grown.first() == child);
    assert(grown.drop_first() =~= frontier);
}

proof fn lemma_bounded_product(a: nat, b: nat, c: nat)
    requires
        a <= b,
    ensures
        a * c <= b * c,
{
    assert(a * c <= b * c) by (nonlinear_arith)
        requires
            a <= b,
    ;
}

/// Searches from `wb` for a finished box, depth first: the box taken from
/// the front of the frontier is returned when it is done, and is else
/// replaced at the front by the boxes that grow it by one of its moves, the
/// last move foremost.
///
/// The outcome is `search` of the box and the words of the lexicon: the
/// first finished box in that order, or nothing when no move leads to one.
pub fn solve_word_box<L: Lexicon>(wb: WordBox, lexicon: &L) -> (found: Option<WordBox>)
    requires
        wb@.wf(),
    ensures
        found_grid(found) == search(wb@, lexicon.words()),
{
    let ghost words = lexicon.words();
    let ghost fan = words.len();
    let ghost start = wb@;
    let mut boxes: VecDeque<WordBox> = VecDeque::new();
    boxes.push_front(wb);
    proof {
        assert(grids(boxes@) =~= seq![start] + Seq::<Grid>::empty());
        lemma_push_front(start, Seq::<Grid>::empty(), words, fan);
    }
    while boxes.len() > 0
        invariant
            start == wb@,
            words == lexicon.words(),
            fan == words.len(),
            forall|k: int| 0 <= k < boxes@.len() ==> (#[trigger] boxes@[k])@.wf(),
            first_found(grids(boxes@), words) == search(start, words),
        decreases total_weight(grids(boxes@), fan),
    {
        let ghost before = grids(boxes@);
        let current = boxes.pop_front().unwrap();
        let ghost g = current@;
        let ghost rest = grids(boxes@);
        proof {
            assert(before.first() == g);
            assert(rest =~= before.drop_first());
            assert(before =~= seq![g] + rest);
            lemma_push_front(g, rest, words, fan);
        }
        if current.is_done() {
            return Some(current);
        }
        let ghost below = tree_size((g.row_dim - g.rows.len() - 1) as nat, fan);
        proof {
            assert(weight(g, fan) == 1 + fan * below);
            assert forall|k: int| 0 <= k < g.cols.len() implies g.rows.len() < (
            #[trigger] g.cols[k]).len() by {
                assert(g.cols[k] == g.rows[k]);
            }
        }
        let prefix = WordBox::take_ith_characters(current.cols.as_slice(), current.rows.len());
        let binding = lexicon.words_with_prefix(prefix.as_str(), current.col_dim);
        let ghost choices = binding.deep_view();
        let ghost mut pushed: nat = 0;
        let mut j: usize = 0;
        proof {
            assert(choices.take(0) =~= Seq::<Word>::empty());
            lemma_admitted_len(g, words, choices.take(0));
            assert(pushed * below == 0) by (nonlinear_arith)
                requires
                    pushed == 0,
            ;
        }
        while j < binding.len()
            invariant
                j <= binding.len(),
                words == lexicon.words(),
                fan == words.len(),
                g == current@,
                g.wf(),
                g.rows.len() < g.row_dim,
                choices == binding.deep_view(),
                choices == matching(words, next_prefix(g), g.col_dim),
                below == tree_size((g.row_dim - g.rows.len() - 1) as nat, fan),
                forall|k: int| 0 <= k < boxes@.len() ==> (#[trigger] boxes@[k])@.wf(),
                first_found(grids(boxes@), words) == match search_moves(
                    g,
                    admitted(g, words, choices.take(j as int)),
                    words,
                ) {
                    Some(done) => Some(done),
                    None => first_found(rest, words),
                },
                pushed <= j,
                total_weight(grids(boxes@), fan) == total_weight(rest, fan) + pushed * below,
            decreases binding.len() - j,
        {
            let choice = &binding[j];
            let ghost c = choice@;
            let ghost tried = admitted(g, words, choices.take(j as int));
            let ghost frontier = grids(boxes@);
            proof {
                assert(c == choices[j as int]);
                lemma_matching_fits(words, next_prefix(g), g.col_dim, j as int);
                assert(choices.take(j + 1) =~= choices.take(j as int).push(c));
                lemma_admitted_push(g, words, choices.take(j as int), c);
            }
            if current.is_valid_move(choice.as_str(), lexicon) {
                let child = current.add_word(choice.clone());
                boxes.push_front(child);
                proof {
                    assert(grids(boxes@) =~= seq![g.add(c)] + frontier);
                    lemma_push_front(g.add(c), frontier, words, fan);
                    assert(tried.push(c).last() == c);
                    assert(tried.push(c).drop_last() =~= tried);
                    assert(weight(g.add(c), fan) == below);
                    assert((pushed + 1) * below == pushed * below + below) by (nonlinear_arith);
                    pushed = pushed + 1;
                }
            }
            j += 1;
        }
        proof {
            assert(choices.take(j as int) =~= choices);
            lemma_matching_len(words, next_prefix(g), g.col_dim);
            lemma_bounded_product(pushed, fan, below);
        }
    }
    None
}

/// Searches from `wb` for a finished box by plain descent: a box that is
/// done is the answer; else each word of the lexicon that is as long as the
/// box is wide and that the box admits is tried as the next row, in the
/// order of the lexicon, and the first answer found below one of them is
/// returned.
///
/// The outcome is `solution` of the box and the words of the lexicon.
pub fn solve<L: Lexicon>(wb: WordBox, lexicon: &L) -> (found: Option<WordBox>)
    requires
        wb@.wf(),
    ensures
        found_grid(found) == solution(wb@, lexicon.words()),
    decreases wb@.row_dim - wb@.rows.len(),
{
    if wb.is_done() {
        return Some(wb);
    }
    let ghost g = wb@;
    let ghost words = lexicon.words();
    proof {
        reveal_strlit("");
        assert(""@ =~= Seq::<char>::empty());
    }
    let pool = lexicon.words_with_prefix("", wb.col_dim);
    let ghost cands = pool.deep_view();
    let mut j: usize = 0;
    assert(cands.skip(0) =~= cands);
    while j < pool.len()
        invariant
            j <= pool.len(),
            g == wb@,
            g.wf(),
            g.rows.len() < g.row_dim,
            words == lexicon.words(),
            cands == pool.deep_view(),
            cands == matching(words, Seq::<char>::empty(), g.col_dim),
            solution(g, words) == solution_among(
                g,
                admitted(g, words, cands.skip(j as int)),
                words,
            ),
        decreases pool.len() - j,
    {
        let choice = &pool[j];
        let ghost c = choice@;
        let ghost later = admitted(g, words, cands.skip(j + 1));
        proof {
            assert(c == cands[j as int]);
            lemma_matching_fits(words, Seq::<char>::empty(), g.col_dim, j as int);
            assert(cands.skip(j as int) =~= seq![c] + cands.skip(j + 1));
            cands.skip(j + 1).lemma_filter_prepend(c, |w: Word| g.admits(words, w));
        }
        if wb.is_valid_move(choice.as_str(), lexicon) {
            proof {
                assert((seq![c] + later).first() == c);
                assert((seq![c] + later).drop_first() =~= later);
            }
            let attempt = solve(wb.add_word(choice.clone()), lexicon);
            if attempt.is_some() {
                return attempt;
            }
        } else {
            assert(Seq::<Word>::empty() + later =~= later);
        }
        j += 1;
    }
    proof {
        assert(cands.skip(j as int) =~= Seq::<Word>::empty());
        lemma_admitted_len(g, words, cands.skip(j as int));
    }
    None
}

/// Searches for a symmetric box of `dim` rows from each word of the lexicon
/// of `dim` characters in turn, that word being the first row and the first
/// column. The searches do not bear on one another: each outcome is that of
/// `solve_word_box` on the box seeded with the word.
pub fn solve_from_each_seed<L: Lexicon>(lexicon: &L, dim: usize) -> (found: Vec<Option<WordBox>>)
    requires
        dim > 0,
    ensures
        found.len() == seeds(lexicon.words(), dim as nat).len(),
        forall|k: int|
            0 <= k < found.len() ==> found_grid(#[trigger] found[k]) == search(
                seeded(dim as nat, seeds(lexicon.words(), dim as nat)[k]),
                lexicon.words(),
            ),
{
    let ghost words = lexicon.words();
    proof {
        reveal_strlit("");
        assert(""@ =~= Seq::<char>::empty());
    }
    let first_rows = lexicon.words_with_prefix("", dim);
    let mut found: Vec<Option<WordBox>> = Vec::new();
    let mut k: usize = 0;
    while k < first_rows.len()
        invariant
            k <= first_rows.len(),
            dim > 0,
            words == lexicon.words(),
            first_rows.deep_view() == seeds(words, dim as nat),
            found.len() == k,
            forall|j: int|
                0 <= j < k ==> found_grid(#[trigger] found[j]) == search(
                    seeded(dim as nat, seeds(words, dim as nat)[j]),
                    words,
                ),
        decreases first_rows.len() - k,
    {
        let word = &first_rows[k];
        let mut rows: Vec<String> = Vec::new();
        rows.push(word.clone());
        let mut cols: Vec<String> = Vec::new();
        cols.push(word.clone());
        let seed = WordBox { row_dim: dim, col_dim: dim, rows, cols, is_symmetric: true };
        proof {
            assert(word@ == first_rows.deep_view()[k as int]);
            lemma_matching_fits(words, Seq::<char>::empty(), dim as nat, k as int);
            assert(seed@.rows =~= seq![word@]);
            assert(seed@.cols =~= seq![word@]);
            assert(seed@ == seeded(dim as nat, word@));
        }
        let outcome = solve_word_box(seed, lexicon);
        found.push(outcome);
        k += 1;
    }
    found
}

} // verus!
