use wordbox::lexicon::{HashMapLexicon, Lexicon, VecLexicon};
use wordbox::word_box::WordBox;

fn words_of(words: &[&str]) -> Vec<String> {
    words.iter().map(|w| w.to_string()).collect()
}

fn plain_box(row_dim: usize, col_dim: usize, rows: &[&str]) -> WordBox {
    WordBox { row_dim, col_dim, rows: words_of(rows), cols: Vec::new(), is_symmetric: false }
}

fn mirror_box(dim: usize, rows: &[&str]) -> WordBox {
    WordBox {
        row_dim: dim,
        col_dim: dim,
        rows: words_of(rows),
        cols: words_of(rows),
        is_symmetric: true,
    }
}

#[test]
fn a_box_is_done_when_every_row_is_placed() {
    assert!(!plain_box(3, 3, &[]).is_done());
    assert!(!plain_box(3, 3, &["cat", "art"]).is_done());
    assert!(plain_box(3, 3, &["cat", "art", "tar"]).is_done());
    assert!(plain_box(0, 0, &[]).is_done());
    assert!(plain_box(2, 3, &["cat", "art"]).is_done());
}

#[test]
fn the_ith_characters_are_taken_in_order() {
    let rows = words_of(&["cat", "art", "tar"]);
    assert_eq!(WordBox::take_ith_characters(&rows, 0), "cat");
    assert_eq!(WordBox::take_ith_characters(&rows, 1), "ara");
    assert_eq!(WordBox::take_ith_characters(&rows, 2), "ttr");
    assert_eq!(WordBox::take_ith_characters(&rows[..1], 1), "a");
    assert_eq!(WordBox::take_ith_characters(&[], 5), "");
    let accented = words_of(&["\u{e9}t\u{e9}", "ab\u{e7}"]);
    assert_eq!(WordBox::take_ith_characters(&accented, 2), "\u{e9}\u{e7}");
}

#[test]
fn adding_a_word_leaves_the_receiver_alone() {
    let b1 = plain_box(3, 3, &["cat"]);
    let before = b1.clone();
    let b2 = b1.add_word("art".to_string());
    assert_eq!(b1, before);
    assert_eq!(b1.rows, words_of(&["cat"]));
    assert_eq!(b2.rows, words_of(&["cat", "art"]));
    assert!(b2.cols.is_empty());
    assert_eq!(b2.row_dim, 3);
    assert_eq!(b2.col_dim, 3);
    assert!(!b2.is_symmetric);
}

#[test]
fn adding_a_word_to_a_symmetric_box_adds_the_column_too() {
    let b1 = mirror_box(3, &["cat"]);
    let b2 = b1.add_word("art".to_string());
    assert_eq!(b1.rows, words_of(&["cat"]));
    assert_eq!(b1.cols, words_of(&["cat"]));
    assert_eq!(b2.rows, words_of(&["cat", "art"]));
    assert_eq!(b2.cols, words_of(&["cat", "art"]));
    assert!(b2.is_symmetric);
    let b3 = b2.add_word("tar".to_string());
    assert_eq!(b2.rows.len(), 2);
    assert_eq!(b3.rows, words_of(&["cat", "art", "tar"]));
    assert!(b3.is_done());
}

#[test]
fn a_move_is_valid_when_every_column_can_still_be_completed() {
    let lexicon = HashMapLexicon::initialize(words_of(&["bat", "ate", "den", "bad", "ten"]), vec![3]);
    let empty = plain_box(3, 3, &[]);
    assert!(empty.is_valid_move("bat", &lexicon));
    assert!(empty.is_valid_move("bad", &lexicon));
    assert!(!empty.is_valid_move("ate", &lexicon));
    assert!(!empty.is_valid_move("den", &lexicon));
    assert!(!empty.is_valid_move("ten", &lexicon));
    let one = plain_box(3, 3, &["bat"]);
    assert!(one.is_valid_move("ate", &lexicon));
    assert!(!one.is_valid_move("bat", &lexicon));
    let two = plain_box(3, 3, &["bat", "ate"]);
    assert!(two.is_valid_move("den", &lexicon));
    assert!(two.is_valid_move("ten", &lexicon));
    assert!(!two.is_valid_move("ate", &lexicon));
    assert!(!two.is_valid_move("bad", &lexicon));
}

#[test]
fn a_move_is_judged_alike_by_both_lexicons() {
    let words = words_of(&["bat", "ate", "den", "bad", "ten"]);
    let scan = VecLexicon::initialize(words.clone(), vec![3]);
    let index = HashMapLexicon::initialize(words.clone(), vec![3]);
    let boxes = [plain_box(3, 3, &[]), plain_box(3, 3, &["bat"]), plain_box(3, 3, &["bad", "ate"])];
    for b in &boxes {
        for w in &words {
            assert_eq!(b.is_valid_move(w, &scan), b.is_valid_move(w, &index));
        }
    }
}

#[test]
fn columns_are_completed_to_the_height_of_the_box() {
    let lexicon = HashMapLexicon::initialize(
        words_of(&["ab", "cd", "ac", "bd", "ace", "bdf"]),
        vec![2, 3],
    );
    let tall = plain_box(3, 2, &[]);
    assert!(tall.is_valid_move("ab", &lexicon));
    assert!(!tall.is_valid_move("cd", &lexicon));
    let flat = plain_box(2, 2, &[]);
    assert!(flat.is_valid_move("ab", &lexicon));
    assert!(!flat.is_valid_move("cd", &lexicon));
    let no_columns = plain_box(2, 0, &[]);
    assert!(no_columns.is_valid_move("", &lexicon));
}

#[test]
fn well_formed_boxes_are_told_from_the_others() {
    assert!(plain_box(3, 3, &[]).is_well_formed());
    assert!(plain_box(3, 3, &["cat", "art", "tar"]).is_well_formed());
    assert!(plain_box(2, 3, &["cat"]).is_well_formed());
    assert!(!plain_box(2, 3, &["cat", "art", "tar"]).is_well_formed());
    assert!(!plain_box(3, 3, &["cart"]).is_well_formed());
    assert!(!plain_box(3, 3, &["ca"]).is_well_formed());
    assert!(mirror_box(3, &["cat"]).is_well_formed());
    let mut crooked = mirror_box(3, &["cat"]);
    crooked.cols = words_of(&["car"]);
    assert!(!crooked.is_well_formed());
    let mut oblong = mirror_box(3, &["cat"]);
    oblong.row_dim = 4;
    assert!(!oblong.is_well_formed());
    let mut short = mirror_box(3, &["cat", "art"]);
    short.cols = words_of(&["cat"]);
    assert!(!short.is_well_formed());
    let mut stray = plain_box(3, 3, &["cat"]);
    stray.cols = words_of(&["cat"]);
    assert!(!stray.is_well_formed());
}

#[test]
fn the_picture_has_a_line_for_each_row() {
    assert_eq!(plain_box(3, 3, &["cat", "art", "tar"]).render(), "cat\nart\ntar\n");
    assert_eq!(plain_box(3, 3, &["cat"]).render(), "cat\n___\n___\n");
    assert_eq!(plain_box(2, 4, &[]).render(), "____\n____\n");
    assert_eq!(plain_box(0, 3, &[]).render(), "");
    assert_eq!(plain_box(2, 0, &[]).render(), "\n\n");
}

#[test]
fn the_picture_of_a_symmetric_box_shows_its_columns() {
    assert_eq!(mirror_box(3, &["cat"]).render(), "cat\na__\nt__\n");
    assert_eq!(mirror_box(3, &["cat", "art"]).render(), "cat\nart\ntt_\n");
    assert_eq!(mirror_box(3, &["bit", "ice"]).render(), "bit\nice\nte_\n");
    assert_eq!(mirror_box(3, &["bit", "ice", "ten"]).render(), "bit\nice\nten\n");
}

#[test]
fn a_column_word_overrides_a_row_word_in_the_picture() {
    let odd = WordBox {
        row_dim: 2,
        col_dim: 2,
        rows: words_of(&["ab"]),
        cols: words_of(&["xy"]),
        is_symmetric: false,
    };
    assert_eq!(odd.render(), "xb\ny_\n");
}
