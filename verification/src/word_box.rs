//! The grid under construction: its dimensions and the words placed so far.

use crate::lexicon::Lexicon;
use crate::words::{char_at, char_len, matching, Word};
use vstd::prelude::*;

verus! {

/// The characters that `rows` hold at position `i`, top to bottom.
pub open spec fn column(rows: Seq<Word>, i: int) -> Word {
    Seq::new(rows.len(), |k: int| rows[k][i])
}

/// A box as a mathematical value.
pub struct Grid {
    /// The number of rows of the finished box.
    pub row_dim: nat,
    /// The number of columns, which is the length of every row.
    pub col_dim: nat,
    /// The rows placed so far, top to bottom.
    pub rows: Seq<Word>,
    /// For a symmetric box, the columns placed so far, left to right.
    pub cols: Seq<Word>,
    /// Whether the box is to equal its own transpose.
    pub is_symmetric: bool,
}

impl Grid {
    /// The box holds no more rows than it has room for, every row is as long
    /// as the box is wide, and the columns are kept in step with the rows: a
    /// symmetric box is square and its columns are its rows, any other box
    /// keeps no columns.
    pub open spec fn wf(self) -> bool {
        &&& self.rows.len() <= self.row_dim
        &&& forall|k: int| 0 <= k < self.rows.len() ==> (#[trigger] self.rows[k]).len() == self.col_dim
        &&& self.is_symmetric ==> self.row_dim == self.col_dim && self.cols == self.rows
        &&& !self.is_symmetric ==> self.cols.len() == 0
    }

    /// Every row is in place.
    pub open spec fn is_done(self) -> bool {
        self.rows.len() == self.row_dim
    }

    /// The box with `w` placed as its next row, and as its next column too
    /// when the box is symmetric.
    pub open spec fn add(self, w: Word) -> Grid {
        Grid {
            row_dim: self.row_dim,
            col_dim: self.col_dim,
            rows: self.rows.push(w),
            cols: if self.is_symmetric {
                self.cols.push(w)
            } else {
                self.cols
            },
            is_symmetric: self.is_symmetric,
        }
    }

    /// With `w` as the next row, every column so far still begins some word
    /// of `words` that is as long as the box is high.
    pub open spec fn admits(self, words: Seq<Word>, w: Word) -> bool {
        forall|i: int|
            0 <= i < self.col_dim ==> (#[trigger] matching(
                words,
                column(self.rows.push(w), i),
                self.row_dim,
            )).len() > 0
    }

    /// Every word placed lies inside the frame of the box.
    pub open spec fn in_frame(self) -> bool {
        &&& self.rows.len() <= self.row_dim
        &&& forall|k: int| 0 <= k < self.rows.len() ==> (#[trigger] self.rows[k]).len() <= self.col_dim
        &&& self.cols.len() <= self.col_dim
        &&& forall|k: int| 0 <= k < self.cols.len() ==> (#[trigger] self.cols[k]).len() <= self.row_dim
    }

    /// The character shown in row `r` and column `c`: that of the column
    /// word where one reaches the cell, else that of the row word, else a
    /// blank mark.
    pub open spec fn cell(self, r: int, c: int) -> char {
        if 0 <= c < self.cols.len() && 0 <= r < self.cols[c].len() {
            self.cols[c][r]
        } else if 0 <= r < self.rows.len() && 0 <= c < self.rows[r].len() {
            self.rows[r][c]
        } else {
            '_'
        }
    }

    /// The first `c` cells of row `r`.
    pub open spec fn cells(self, r: int, c: nat) -> Seq<char> {
        Seq::new(c, |j: int| self.cell(r, j))
    }

    /// The first `r` lines of the picture, each closed by a line feed.
    pub open spec fn lines(self, r: nat) -> Seq<char>
        decreases r,
    {
        if r == 0 {
            Seq::empty()
        } else {
            self.lines((r - 1) as nat) + self.cells(r - 1, self.col_dim).push('\n')
        }
    }

    /// The picture of the box: one line for each row.
    pub open spec fn text(self) -> Seq<char> {
        self.lines(self.row_dim)
    }
}

/// A word box under construction.
#[derive(Debug, Clone, PartialEq, Eq)]
pub struct WordBox {
    /// The number of rows of the finished box.
    pub row_dim: usize,
    /// The number of columns, which is the length of every row.
    pub col_dim: usize,
    /// The rows placed so far, top to bottom.
    pub rows: Vec<String>,
    /// For a symmetric box, the columns placed so far, left to right.
    pub cols: Vec<String>,
    /// Whether the box is to equal its own transpose.
    pub is_symmetric: bool,
}

impl View for WordBox {
    type V = Grid;

    open spec fn view(&self) -> Grid {
        Grid {
            row_dim: self.row_dim as nat,
            col_dim: self.col_dim as nat,
            rows: self.rows.deep_view(),
            cols: self.cols.deep_view(),
            is_symmetric: self.is_symmetric,
        }
    }
}

/// A copy of a list of words holds the same words.
proof fn lemma_copy_holds_the_same(words: Vec<String>, copy: Vec<String>)
    requires
        copy.len() == words.len(),
        forall|i: int| 0 <= i < words.len() ==> cloned::<String>(#[trigger] words[i], copy[i]),
    ensures
        copy.deep_view() == words.deep_view(),
{
    assert forall|i: int| 0 <= i < words.len() implies copy.deep_view()[i]
        == words.deep_view()[i] by {
        assert(cloned::<String>(words[i], copy[i]));
    }
    assert(copy.deep_view() =~= words.deep_view());
}

impl WordBox {
    /// Whether every row is in place.
    pub fn is_done(&self) -> (done: bool)
        ensures
            done == self@.is_done(),
    {
        self.rows.len() == self.row_dim
    }

    /// Whether the box is well formed.
    pub fn is_well_formed(&self) -> (ok: bool)
        ensures
            ok == self@.wf(),
    {
        if self.rows.len() > self.row_dim {
            return false;
        }
        let mut k: usize = 0;
        while k < self.rows.len()
            invariant
                k <= self.rows.len(),
                forall|j: int| 0 <= j < k ==> (#[trigger] self@.rows[j]).len() == self.col_dim,
            decreases self.rows.len() - k,
        {
            if char_len(self.rows[k].as_str()) != self.col_dim {
                assert(self@.rows[k as int].len() != self.col_dim);
                return false;
            }
            k += 1;
        }
        if !self.is_symmetric {
            return self.cols.len() == 0;
        }
        if self.row_dim != self.col_dim || self.cols.len() != self.rows.len() {
            return false;
        }
        let mut k: usize = 0;
        while k < self.rows.len()
            invariant
                k <= self.rows.len(),
                self.cols.len() == self.rows.len(),
                forall|j: int| 0 <= j < k ==> #[trigger] self@.cols[j] == self@.rows[j],
            decreases self.rows.len() - k,
        {
            if self.cols[k] != self.rows[k] {
                assert(self@.cols[k as int] != self@.rows[k as int]);
                return false;
            }
            k += 1;
        }
        assert(self@.cols =~= self@.rows);
        true
    }

    /// The characters that `words` hold at position `i`, in order.
    pub fn take_ith_characters(words: &[String], i: usize) -> (taken: String)
        requires
            forall|k: int|
                0 <= k < words.deep_view().len() ==> i < (#[trigger] words.deep_view()[k]).len(),
        ensures
            taken@ == column(words.deep_view(), i as int),
    {
        let mut taken = String::new();
        let mut k: usize = 0;
        while k < words.len()
            invariant
                k <= words.len(),
                forall|j: int|
                    0 <= j < words.deep_view().len() ==> i < (#[trigger] words.deep_view()[j]).len(),
                taken@ =~= column(words.deep_view().take(k as int), i as int),
            decreases words.len() - k,
        {
            let ghost before = taken@;
            assert(words.deep_view()[k as int] == words[k as int]@);
            taken.append(char_at(words[k].as_str(), i));
            assert(taken@ =~= before.push(words[k as int]@[i as int]));
            k += 1;
        }
        assert(words.deep_view().take(k as int) =~= words.deep_view());
        taken
    }

    /// Whether `word` can be the next row: whether, with it in place, every
    /// column so far still begins some word of the lexicon that is as long
    /// as the box is high.
    pub fn is_valid_move<L: Lexicon>(&self, word: &str, lexicon: &L) -> (valid: bool)
        requires
            forall|k: int|
                0 <= k < self@.rows.len() ==> self.col_dim <= (#[trigger] self@.rows[k]).len(),
            self.col_dim <= word@.len(),
        ensures
            valid == self@.admits(lexicon.words(), word@),
    {
        let mut rows: Vec<String> = self.rows.clone();
        proof {
            lemma_copy_holds_the_same(self.rows, rows);
        }
        rows.push(word.to_owned());
        assert(rows.deep_view() =~= self@.rows.push(word@));
        let mut i: usize = 0;
        while i < self.col_dim
            invariant
                i <= self.col_dim,
                rows.deep_view() == self@.rows.push(word@),
                forall|k: int|
                    0 <= k < rows.deep_view().len() ==> self.col_dim <= (
                    #[trigger] rows.deep_view()[k]).len(),
                forall|j: int|
                    0 <= j < i ==> (#[trigger] matching(
                        lexicon.words(),
                        column(self@.rows.push(word@), j),
                        self@.row_dim,
                    )).len() > 0,
            decreases self.col_dim - i,
        {
            let prefix = Self::take_ith_characters(rows.as_slice(), i);
            let choices = lexicon.words_with_prefix(prefix.as_str(), self.row_dim);
            if choices.is_empty() {
                assert(matching(
                    lexicon.words(),
                    column(self@.rows.push(word@), i as int),
                    self@.row_dim,
                ).len() == 0);
                return false;
            }
            i += 1;
        }
        true
    }

    /// The box with `word` placed as its next row, and as its next column
    /// too when the box is symmetric. The receiver is left as it was.
    pub fn add_word(&self, word: String) -> (grown: WordBox)
        ensures
            grown@ == self@.add(word@),
            self@.wf() && self@.rows.len() < self@.row_dim && word@.len() == self@.col_dim
                ==> grown@.wf(),
    {
        let mut rows: Vec<String> = self.rows.clone();
        let mut cols: Vec<String> = self.cols.clone();
        proof {
            lemma_copy_holds_the_same(self.rows, rows);
            lemma_copy_holds_the_same(self.cols, cols);
        }
        rows.push(word.clone());
        if self.is_symmetric {
            cols.push(word.clone());
        }
        let grown = WordBox {
            row_dim: self.row_dim,
            col_dim: self.col_dim,
            rows,
            cols,
            is_symmetric: self.is_symmetric,
        };
        assert(grown@.rows =~= self@.rows.push(word@));
        assert(grown@.cols =~= self@.add(word@).cols);
        grown
    }

    /// The picture of the box: one line for each row, each cell showing the
    /// character placed there or a blank mark.
    pub fn render(&self) -> (picture: String)
        requires
            self@.in_frame(),
        ensures
            picture@ == self@.text(),
    {
        let mut picture = String::new();
        let mut r: usize = 0;
        while r < self.row_dim
            invariant
                r <= self.row_dim,
                picture@ == self@.lines(r as nat),
            decreases self.row_dim - r,
        {
            let ghost above = picture@;
            let mut c: usize = 0;
            while c < self.col_dim
                invariant
                    c <= self.col_dim,
                    r < self.row_dim,
                    picture@ =~= above + self@.cells(r as int, c as nat),
                decreases self.col_dim - c,
            {
                let ghost before = picture@;
                if c < self.cols.len() && r < char_len(self.cols[c].as_str()) {
                    picture.append(char_at(self.cols[c].as_str(), r));
                } else if r < self.rows.len() && c < char_len(self.rows[r].as_str()) {
                    picture.append(char_at(self.rows[r].as_str(), c));
                } else {
                    proof {
                        reveal_strlit("_");
                    }
                    picture.append("_");
                }
                assert(picture@ =~= before.push(self@.cell(r as int, c as int)));
                c += 1;
            }
            proof {
                reveal_strlit("\n");
            }
            picture.append("\n");
            assert(picture@ =~= above + self@.cells(r as int, self@.col_dim).push('\n'));
            r += 1;
        }
        picture
    }
}

} // verus!
