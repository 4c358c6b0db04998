//! What holds of every lexicon and of every search.

use crate::lexicon::Lexicon;
use crate::search::{
    admitted, moves, next_prefix, search, search_moves, seeded, seeds, solution, solution_among,
};
use crate::word_box::{column, Grid};
use crate::words::{
    fits, has_length_in, lemma_matching_contains, lemma_matching_fits, lemma_matching_push, lemma_of_length_push,
    lemma_retained_push, matching, of_length, retained, Word,
};
use vstd::prelude::*;

verus! {

/// Asking for the empty prefix gives every word of the asked length, in the
/// order of the dictionary.
pub proof fn lemma_empty_prefix_gives_all(words: Seq<Word>, len: nat)
    ensures
        matching(words, Seq::<char>::empty(), len) == of_length(words, len),
    decreases words.len(),
{
    let none = Seq::<char>::empty();
    if words.len() == 0 {
        words.lemma_filter_len(|w: Word| fits(w, none, len));
        words.lemma_filter_len(|w: Word| w.len() == len);
        assert(matching(words, none, len) =~= of_length(words, len));
    } else {
        let front = words.drop_last();
        let w = words.last();
        assert(words =~= front.push(w));
        lemma_empty_prefix_gives_all(front, len);
        lemma_matching_push(front, w, none, len);
        lemma_of_length_push(front, w, len);
        assert(none.is_prefix_of(w));
    }
}

/// Where a length is one of those retained, the retained words of that
/// length are the given words of that length.
pub proof fn lemma_retained_keeps_length(given: Seq<Word>, lengths: Seq<usize>, len: nat)
    requires
        exists|k: int| 0 <= k < lengths.len() && #[trigger] lengths[k] as nat == len,
    ensures
        of_length(retained(given, lengths), len) == of_length(given, len),
    decreases given.len(),
{
    if given.len() == 0 {
        given.lemma_filter_len(|w: Word| has_length_in(w, lengths));
        assert(retained(given, lengths) =~= given);
    } else {
        let front = given.drop_last();
        let w = given.last();
        assert(given =~= front.push(w));
        lemma_retained_keeps_length(front, lengths, len);
        lemma_retained_push(front, w, lengths);
        lemma_of_length_push(front, w, len);
        if has_length_in(w, lengths) {
            lemma_of_length_push(retained(front, lengths), w, len);
        } else {
            assert(w.len() != len);
        }
    }
}

/// A lexicon asked for the empty prefix and a retained length answers with
/// exactly the given words of that length, however it is built.
pub proof fn lemma_first_rows_are_all_words<L: Lexicon>(
    lexicon: &L,
    given: Seq<Word>,
    lengths: Seq<usize>,
    len: nat,
    w: Word,
)
    requires
        lexicon.words() == retained(given, lengths),
        exists|k: int| 0 <= k < lengths.len() && #[trigger] lengths[k] as nat == len,
    ensures
        matching(lexicon.words(), Seq::<char>::empty(), len) == of_length(given, len),
        matching(lexicon.words(), Seq::<char>::empty(), len).contains(w) <==> given.contains(w)
            && w.len() == len,
{
    lemma_empty_prefix_gives_all(lexicon.words(), len);
    lemma_retained_keeps_length(given, lengths, len);
    lemma_empty_prefix_gives_all(given, len);
    lemma_matching_contains(given, Seq::<char>::empty(), len, w);
    assert(Seq::<char>::empty().is_prefix_of(w));
}

/// A prefix longer than the asked length matches nothing.
pub proof fn lemma_long_prefix_matches_nothing(words: Seq<Word>, prefix: Word, len: nat)
    requires
        prefix.len() > len,
    ensures
        matching(words, prefix, len).len() == 0,
{
    if matching(words, prefix, len).len() > 0 {
        lemma_matching_fits(words, prefix, len, 0);
    }
}

/// Every word of the dictionary is found under each of its prefixes, the
/// empty one and the word itself included.
pub proof fn lemma_word_is_found_under_each_prefix(words: Seq<Word>, w: Word, i: int)
    requires
        words.contains(w),
        0 <= i <= w.len(),
    ensures
        matching(words, w.subrange(0, i), w.len()).contains(w),
{
    lemma_matching_contains(words, w.subrange(0, i), w.len(), w);
}

/// Two lexicons built from the same words and lengths answer every query
/// alike, whatever their kind.
pub proof fn lemma_lexicons_agree<A: Lexicon, B: Lexicon>(
    a: &A,
    b: &B,
    given: Seq<Word>,
    lengths: Seq<usize>,
    prefix: Word,
    len: nat,
)
    requires
        a.words() == retained(given, lengths),
        b.words() == retained(given, lengths),
    ensures
        matching(a.words(), prefix, len) == matching(b.words(), prefix, len),
{
}

/// Asking a lexicon the same question twice gives the same answer twice:
/// both answers are the one that the retained words fix.
pub proof fn lemma_query_repeats<L: Lexicon>(
    lexicon: &L,
    prefix: Word,
    len: nat,
    first: Seq<Word>,
    second: Seq<Word>,
)
    requires
        first == matching(lexicon.words(), prefix, len),
        second == matching(lexicon.words(), prefix, len),
    ensures
        first == second,
{
}

/// `rows` read along the rows as they read along the columns, as far as
/// they go.
pub open spec fn mirrored(rows: Seq<Word>) -> bool {
    forall|i: int, j: int|
        0 <= i < rows.len() && 0 <= j < rows.len() ==> #[trigger] rows[i][j] == rows[j][i]
}

/// From row `from` on, each row of `rows` begins with what the rows above
/// it hold in its column.
pub open spec fn mirrored_from(rows: Seq<Word>, from: nat) -> bool {
    forall|i: int, j: int|
        from <= i < rows.len() && 0 <= j < i ==> #[trigger] rows[i][j] == rows[j][i]
}

/// Every column of `g` is a word of `words`.
pub open spec fn columns_in(g: Grid, words: Seq<Word>) -> bool {
    forall|c: int| 0 <= c < g.col_dim ==> words.contains(#[trigger] column(g.rows, c))
}

/// `full` is a finished box that continues `g`: the rows that it adds are
/// words of `words` as long as the box is wide, and each of its columns is
/// a word of `words`.
pub open spec fn completes(full: Grid, g: Grid, words: Seq<Word>) -> bool {
    &&& full.row_dim == g.row_dim
    &&& full.col_dim == g.col_dim
    &&& full.is_symmetric == g.is_symmetric
    &&& full.rows.len() == full.row_dim
    &&& g.rows.is_prefix_of(full.rows)
    &&& forall|i: int|
        g.rows.len() <= i < full.rows.len() ==> words.contains(#[trigger] full.rows[i])
            && full.rows[i].len() == full.col_dim
    &&& columns_in(full, words)
}

/// `done` is a finished, well-formed box of the shape of `g` that begins
/// with the rows of `g` and adds to them only words of `words`, each as
/// long as the box is wide.
pub open spec fn grown_from(done: Grid, g: Grid, words: Seq<Word>) -> bool {
    &&& done.wf()
    &&& done.is_done()
    &&& done.row_dim == g.row_dim
    &&& done.col_dim == g.col_dim
    &&& done.is_symmetric == g.is_symmetric
    &&& g.rows.is_prefix_of(done.rows)
    &&& forall|i: int|
        g.rows.len() <= i < done.rows.len() ==> words.contains(#[trigger] done.rows[i])
            && done.rows[i].len() == done.col_dim
}

/// A well-formed box grown by a row as long as it is wide, where it has
/// room for one, is well formed.
pub proof fn lemma_add_keeps_wf(g: Grid, w: Word)
    requires
        g.wf(),
        g.rows.len() < g.row_dim,
        w.len() == g.col_dim,
    ensures
        g.add(w).wf(),
{
    let grown = g.add(w);
    assert forall|k: int| 0 <= k < grown.rows.len() implies (#[trigger] grown.rows[k]).len()
        == grown.col_dim by {
        if k < g.rows.len() {
            assert(grown.rows[k] == g.rows[k]);
        }
    }
    if g.is_symmetric {
        assert(grown.cols =~= grown.rows);
    }
}

/// A word in the pool of moves stands in the dictionary, is as long as the
/// box is wide, begins as asked, and is admitted by the box.
pub proof fn lemma_move_fits(g: Grid, words: Seq<Word>, prefix: Word, w: Word)
    requires
        admitted(g, words, matching(words, prefix, g.col_dim)).contains(w),
    ensures
        words.contains(w),
        fits(w, prefix, g.col_dim),
        g.admits(words, w),
{
    let pool = matching(words, prefix, g.col_dim);
    let pred = |w: Word| g.admits(words, w);
    let kept = pool.filter(pred);
    let i = choose|i: int| 0 <= i < kept.len() && kept[i] == w;
    pool.lemma_filter_pred(pred, i);
    pool.lemma_filter_contains_rev(pred, w);
    lemma_matching_contains(words, prefix, g.col_dim, w);
}

/// A word of the dictionary that is as long as the box is wide, begins as
/// asked and is admitted by the box is in the pool of moves.
pub proof fn lemma_fitting_is_move(g: Grid, words: Seq<Word>, prefix: Word, w: Word)
    requires
        words.contains(w),
        fits(w, prefix, g.col_dim),
        g.admits(words, w),
    ensures
        admitted(g, words, matching(words, prefix, g.col_dim)).contains(w),
{
    let pool = matching(words, prefix, g.col_dim);
    let pred = |w: Word| g.admits(words, w);
    lemma_matching_contains(words, prefix, g.col_dim, w);
    let i = choose|i: int| 0 <= i < pool.len() && pool[i] == w;
    pool.lemma_filter_contains(pred, i);
}

/// When the last row goes in, the columns that the box admits are words of
/// the dictionary.
pub proof fn lemma_last_row_closes_columns(g: Grid, words: Seq<Word>, w: Word)
    requires
        g.rows.len() + 1 == g.row_dim,
        g.admits(words, w),
    ensures
        columns_in(g.add(w), words),
{
    assert forall|c: int| 0 <= c < g.col_dim implies words.contains(
        #[trigger] column(g.add(w).rows, c),
    ) by {
        let col = column(g.rows.push(w), c);
        let found = matching(words, col, g.row_dim);
        assert(found.len() > 0);
        assert(found.contains(found[0]));
        lemma_matching_contains(words, col, g.row_dim, found[0]);
        assert(found[0] =~= col);
    }
}

/// The row by which a completion continues a box is a word of the
/// dictionary that the box admits, and the completion continues the box so
/// grown.
pub proof fn lemma_completion_admits(full: Grid, g: Grid, words: Seq<Word>)
    requires
        g.wf(),
        g.rows.len() < g.row_dim,
        completes(full, g, words),
    ensures
        words.contains(full.rows[g.rows.len() as int]),
        full.rows[g.rows.len() as int].len() == g.col_dim,
        g.admits(words, full.rows[g.rows.len() as int]),
        g.add(full.rows[g.rows.len() as int]).wf(),
        completes(full, g.add(full.rows[g.rows.len() as int]), words),
{
    let r = g.rows.len() as int;
    let w = full.rows[r];
    assert(g.add(w).rows =~= full.rows.subrange(0, r + 1));
    assert forall|i: int| 0 <= i < g.col_dim implies (#[trigger] matching(
        words,
        column(g.rows.push(w), i),
        g.row_dim,
    )).len() > 0 by {
        let whole = column(full.rows, i);
        let part = column(g.rows.push(w), i);
        assert(part =~= whole.subrange(0, r + 1));
        assert(fits(whole, part, g.row_dim));
        lemma_matching_contains(words, part, g.row_dim, whole);
    }
    lemma_add_keeps_wf(g, w);
}

/// In a completion that equals its transpose, the row that continues a
/// symmetric box begins as that box asks.
pub proof fn lemma_completion_begins_right(full: Grid, g: Grid, words: Seq<Word>)
    requires
        g.wf(),
        g.rows.len() < g.row_dim,
        completes(full, g, words),
        g.is_symmetric ==> mirrored(full.rows),
    ensures
        next_prefix(g).is_prefix_of(full.rows[g.rows.len() as int]),
{
    let r = g.rows.len() as int;
    let w = full.rows[r];
    assert(g.rows =~= full.rows.subrange(0, r));
    if g.is_symmetric {
        assert forall|k: int| 0 <= k < r implies next_prefix(g)[k] == w[k] by {
            assert(full.rows[r][k] == full.rows[k][r]);
            assert(g.rows[k] == full.rows[k]);
        }
        assert(next_prefix(g) =~= w.subrange(0, r));
    } else {
        assert(next_prefix(g) =~= w.subrange(0, 0));
    }
}

/// What the search reaches by one of `cands`, it reaches from the box grown
/// by one of them.
pub proof fn lemma_search_moves_some(g: Grid, cands: Seq<Word>, words: Seq<Word>)
    ensures
        search_moves(g, cands, words) matches Some(done) ==> g.rows.len() < g.row_dim
            && exists|m: int|
            0 <= m < cands.len() && search(g.add(#[trigger] cands[m]), words) == Some(done),
    decreases cands.len(),
{
    if cands.len() > 0 && g.rows.len() < g.row_dim {
        if search(g.add(cands.last()), words) is None {
            lemma_search_moves_some(g, cands.drop_last(), words);
            if let Some(done) = search_moves(g, cands, words) {
                let m = choose|m: int|
                    0 <= m < cands.drop_last().len() && search(
                        g.add(#[trigger] cands.drop_last()[m]),
                        words,
                    ) == Some(done);
                assert(cands[m] == cands.drop_last()[m]);
            }
        } else {
            assert(cands[cands.len() - 1] == cands.last());
        }
    }
}

/// When the search reaches nothing by any of `cands`, it reaches nothing
/// from the box grown by any one of them.
pub proof fn lemma_search_moves_none(g: Grid, cands: Seq<Word>, words: Seq<Word>, m: int)
    requires
        g.rows.len() < g.row_dim,
        0 <= m < cands.len(),
        search_moves(g, cands, words) is None,
    ensures
        search(g.add(cands[m]), words) is None,
    decreases cands.len(),
{
    if m < cands.len() - 1 {
        lemma_search_moves_none(g, cands.drop_last(), words, m);
    }
}

/// What the descent reaches by one of `cands`, it reaches from the box
/// grown by one of them.
pub proof fn lemma_solution_among_some(g: Grid, cands: Seq<Word>, words: Seq<Word>)
    ensures
        solution_among(g, cands, words) matches Some(done) ==> g.rows.len() < g.row_dim
            && exists|m: int|
            0 <= m < cands.len() && solution(g.add(#[trigger] cands[m]), words) == Some(done),
    decreases cands.len(),
{
    if cands.len() > 0 && g.rows.len() < g.row_dim {
        if solution(g.add(cands.first()), words) is None {
            lemma_solution_among_some(g, cands.drop_first(), words);
            if let Some(done) = solution_among(g, cands, words) {
                let m = choose|m: int|
                    0 <= m < cands.drop_first().len() && solution(
                        g.add(#[trigger] cands.drop_first()[m]),
                        words,
                    ) == Some(done);
                assert(cands[m + 1] == cands.drop_first()[m]);
            }
        } else {
            assert(cands[0] == cands.first());
        }
    }
}

/// When the descent reaches nothing by any of `cands`, it reaches nothing
/// from the box grown by any one of them.
pub proof fn lemma_solution_among_none(g: Grid, cands: Seq<Word>, words: Seq<Word>, m: int)
    requires
        g.rows.len() < g.row_dim,
        0 <= m < cands.len(),
        solution_among(g, cands, words) is None,
    ensures
        solution(g.add(cands[m]), words) is None,
    decreases cands.len(),
{
    if m > 0 {
        lemma_solution_among_none(g, cands.drop_first(), words, m - 1);
    }
}

/// The box that a search reaches is finished and well formed, begins with
/// the rows that the search started from, and adds to them only words of
/// the dictionary that are as long as the box is wide. If the search has
/// added a row, every column of the box is a word of the dictionary. In a
/// symmetric box each added row begins with what the rows above it hold in
/// its column.
pub proof fn lemma_search_sound(g: Grid, words: Seq<Word>)
    requires
        g.wf(),
    ensures
        search(g, words) matches Some(done) ==> {
            &&& grown_from(done, g, words)
            &&& g.rows.len() < g.row_dim ==> columns_in(done, words)
            &&& g.is_symmetric ==> mirrored_from(done.rows, g.rows.len())
        },
    decreases g.row_dim - g.rows.len(),
{
    if let Some(done) = search(g, words) {
        if !g.is_done() {
            let r = g.rows.len() as int;
            lemma_search_moves_some(g, moves(g, words), words);
            let m = choose|m: int|
                0 <= m < moves(g, words).len() && search(
                    g.add(#[trigger] moves(g, words)[m]),
                    words,
                ) == Some(done);
            let w = moves(g, words)[m];
            let grown = g.add(w);
            assert(moves(g, words).contains(w));
            lemma_move_fits(g, words, next_prefix(g), w);
            lemma_add_keeps_wf(g, w);
            lemma_search_sound(grown, words);
            assert(done.rows[r] == grown.rows[r]);
            assert forall|i: int| g.rows.len() <= i < done.rows.len() implies words.contains(
                #[trigger] done.rows[i],
            ) && done.rows[i].len() == done.col_dim by {}
            if g.is_symmetric {
                assert forall|i: int, j: int|
                    g.rows.len() <= i < done.rows.len() && 0 <= j < i implies #[trigger] done.rows[i][j]
                    == done.rows[j][i] by {
                    if i == r {
                        assert(next_prefix(g)[j] == w[j]);
                        assert(done.rows.subrange(0, r + 1)[j] == grown.rows[j]);
                    }
                }
            }
            if grown.is_done() {
                lemma_last_row_closes_columns(g, words, w);
            }
        }
    }
}

/// A symmetric search that starts from rows that read the same both ways
/// reaches a box that equals its transpose.
pub proof fn lemma_search_mirrors(g: Grid, words: Seq<Word>)
    requires
        g.wf(),
        g.is_symmetric,
        mirrored(g.rows),
    ensures
        search(g, words) matches Some(done) ==> mirrored(done.rows),
{
    lemma_search_sound(g, words);
    if let Some(done) = search(g, words) {
        assert forall|i: int, j: int|
            0 <= i < done.rows.len() && 0 <= j < done.rows.len() implies #[trigger] done.rows[i][j]
            == done.rows[j][i] by {
            if i < g.rows.len() && j < g.rows.len() {
                assert(g.rows[i][j] == g.rows[j][i]);
                assert(g.rows[i] == done.rows[i]);
                assert(g.rows[j] == done.rows[j]);
            } else if j < i {
                assert(done.rows[i][j] == done.rows[j][i]);
            } else if i < j {
                assert(done.rows[j][i] == done.rows[i][j]);
            }
        }
    }
}

/// A search finds a box wherever one is to be found: if any finished box
/// continues `g` with rows and columns that are all words of the
/// dictionary, and equals its transpose where `g` is symmetric, then the
/// search from `g` does not come back empty. So a search that comes back
/// empty shows that no such box exists.
pub proof fn lemma_search_exhaustive(g: Grid, words: Seq<Word>, full: Grid)
    requires
        g.wf(),
        completes(full, g, words),
        g.is_symmetric ==> mirrored(full.rows),
    ensures
        search(g, words) is Some,
    decreases g.row_dim - g.rows.len(),
{
    if !g.is_done() {
        let w = full.rows[g.rows.len() as int];
        lemma_completion_admits(full, g, words);
        lemma_completion_begins_right(full, g, words);
        lemma_fitting_is_move(g, words, next_prefix(g), w);
        lemma_search_exhaustive(g.add(w), words, full);
        let m = choose|m: int| 0 <= m < moves(g, words).len() && moves(g, words)[m] == w;
        if search(g, words) is None {
            lemma_search_moves_none(g, moves(g, words), words, m);
        }
    }
}

/// The box that a plain descent reaches is finished and well formed,
/// begins with the rows that the descent started from, and adds to them
/// only words of the dictionary that are as long as the box is wide. If the
/// descent has added a row, every column of the box is a word of the
/// dictionary.
pub proof fn lemma_solution_sound(g: Grid, words: Seq<Word>)
    requires
        g.wf(),
    ensures
        solution(g, words) matches Some(done) ==> {
            &&& grown_from(done, g, words)
            &&& g.rows.len() < g.row_dim ==> columns_in(done, words)
        },
    decreases g.row_dim - g.rows.len(),
{
    if let Some(done) = solution(g, words) {
        if !g.is_done() {
            let r = g.rows.len() as int;
            let pool = admitted(g, words, matching(words, Seq::<char>::empty(), g.col_dim));
            lemma_solution_among_some(g, pool, words);
            let m = choose|m: int|
                0 <= m < pool.len() && solution(g.add(#[trigger] pool[m]), words) == Some(done);
            let w = pool[m];
            let grown = g.add(w);
            assert(pool.contains(w));
            lemma_move_fits(g, words, Seq::<char>::empty(), w);
            lemma_add_keeps_wf(g, w);
            lemma_solution_sound(grown, words);
            assert(done.rows[r] == grown.rows[r]);
            assert forall|i: int| g.rows.len() <= i < done.rows.len() implies words.contains(
                #[trigger] done.rows[i],
            ) && done.rows[i].len() == done.col_dim by {}
            if grown.is_done() {
                lemma_last_row_closes_columns(g, words, w);
            }
        }
    }
}

/// A plain descent finds a box wherever one is to be found: if any finished
/// box continues `g` with rows and columns that are all words of the
/// dictionary, the descent from `g` does not come back empty. So a descent
/// that comes back empty shows that no such box exists.
pub proof fn lemma_solution_exhaustive(g: Grid, words: Seq<Word>, full: Grid)
    requires
        g.wf(),
        completes(full, g, words),
    ensures
        solution(g, words) is Some,
    decreases g.row_dim - g.rows.len(),
{
    if !g.is_done() {
        let w = full.rows[g.rows.len() as int];
        let pool = admitted(g, words, matching(words, Seq::<char>::empty(), g.col_dim));
        lemma_completion_admits(full, g, words);
        assert(Seq::<char>::empty().is_prefix_of(w));
        lemma_fitting_is_move(g, words, Seq::<char>::empty(), w);
        lemma_solution_exhaustive(g.add(w), words, full);
        let m = choose|m: int| 0 <= m < pool.len() && pool[m] == w;
        if solution(g, words) is None {
            lemma_solution_among_none(g, pool, words, m);
        }
    }
}

/// The box that a seeded search reaches is a symmetric word box: every row
/// is a word of the dictionary as long as the box is wide, the box equals
/// its transpose, and so every column is a word of the dictionary too.
pub proof fn lemma_seeded_search_sound(words: Seq<Word>, dim: nat, k: int)
    requires
        dim > 0,
        0 <= k < seeds(words, dim).len(),
    ensures
        search(seeded(dim, seeds(words, dim)[k]), words) matches Some(done) ==> {
            &&& done.rows.len() == dim
            &&& done.rows[0] == seeds(words, dim)[k]
            &&& forall|i: int|
                0 <= i < dim ==> words.contains(#[trigger] done.rows[i]) && done.rows[i].len()
                    == dim
            &&& mirrored(done.rows)
            &&& columns_in(done, words)
        },
{
    let w = seeds(words, dim)[k];
    let g = seeded(dim, w);
    lemma_matching_fits(words, Seq::<char>::empty(), dim, k);
    lemma_search_sound(g, words);
    lemma_search_mirrors(g, words);
    if let Some(done) = search(g, words) {
        assert(done.rows[0] == g.rows[0]);
        assert forall|c: int| 0 <= c < dim implies words.contains(
            #[trigger] column(done.rows, c),
        ) by {
            assert forall|j: int| 0 <= j < dim implies column(done.rows, c)[j]
                == done.rows[c][j] by {
                assert(done.rows[j][c] == done.rows[c][j]);
            }
            assert(column(done.rows, c) =~= done.rows[c]);
        }
    }
}

/// The seeded searches between them find a symmetric box wherever one is to
/// be found: if the rows of any square box that equals its transpose are
/// all words of the dictionary, then the search seeded with its first row
/// does not come back empty, and that row is one of the seeds.
pub proof fn lemma_seeds_exhaustive(words: Seq<Word>, dim: nat, rows: Seq<Word>)
    requires
        dim > 0,
        rows.len() == dim,
        forall|i: int| 0 <= i < dim ==> words.contains(#[trigger] rows[i]) && rows[i].len() == dim,
        mirrored(rows),
    ensures
        seeds(words, dim).contains(rows[0]),
        search(seeded(dim, rows[0]), words) is Some,
{
    let full = Grid { row_dim: dim, col_dim: dim, rows, cols: rows, is_symmetric: true };
    let g = seeded(dim, rows[0]);
    lemma_matching_contains(words, Seq::<char>::empty(), dim, rows[0]);
    assert(Seq::<char>::empty().is_prefix_of(rows[0]));
    assert(g.rows =~= rows.subrange(0, 1));
    assert forall|c: int| 0 <= c < dim implies words.contains(#[trigger] column(rows, c)) by {
        assert forall|k: int| 0 <= k < dim implies column(rows, c)[k] == rows[c][k] by {
            assert(rows[k][c] == rows[c][k]);
        }
        assert(column(rows, c) =~= rows[c]);
    }
    lemma_search_exhaustive(g, words, full);
}

} // verus!
