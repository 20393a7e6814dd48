use glushkov::{ParseTree, ClassItem, RegexError, compile, check};

fn leaf(b: u8) -> Box<ParseTree> {
    Box::new(ParseTree::Letter(b))
}

fn accepts(t: &ParseTree, subject: &[u8]) -> bool {
    let aut = compile(t).expect("pattern should compile");
    check(&aut, subject)
}

#[test]
fn concat_of_two_letters() {
    let t = ParseTree::Concat(leaf(b'a'), leaf(b'b'));
    assert!(accepts(&t, b"ab"));
    assert!(!accepts(&t, b"a"));
    assert!(!accepts(&t, b"b"));
    assert!(!accepts(&t, b""));
    assert!(!accepts(&t, b"abb"));
}

#[test]
fn star_accepts_empty() {
    let t = ParseTree::Star(leaf(b'a'));
    assert!(accepts(&t, b""));
    assert!(accepts(&t, b"a"));
    assert!(accepts(&t, b"aaaa"));
    assert!(!accepts(&t, b"ab"));
}

#[test]
fn plus_rejects_empty() {
    let t = ParseTree::Plus(leaf(b'a'));
    assert!(!accepts(&t, b""));
    assert!(accepts(&t, b"a"));
    assert!(accepts(&t, b"aaa"));
    assert!(!accepts(&t, b"b"));
}

#[test]
fn char_class_range() {
    let t = ParseTree::CharClass(vec![ClassItem::Range(b'a', b'c')]);
    assert!(accepts(&t, b"b"));
    assert!(accepts(&t, b"a"));
    assert!(accepts(&t, b"c"));
    assert!(!accepts(&t, b"d"));
    assert!(!accepts(&t, b""));
}

#[test]
fn bounded_quantifier() {
    let t = ParseTree::Quantifier(leaf(b'a'), 2, 3);
    assert!(!accepts(&t, b"a"));
    assert!(accepts(&t, b"aa"));
    assert!(accepts(&t, b"aaa"));
    assert!(!accepts(&t, b"aaaa"));
    assert!(!accepts(&t, b""));
}

#[test]
fn alternation_under_star() {
    let ab = ParseTree::Concat(leaf(b'a'), leaf(b'b'));
    let cd = ParseTree::Concat(leaf(b'c'), leaf(b'd'));
    let t = ParseTree::Star(Box::new(ParseTree::Paren(Box::new(ParseTree::Or(
        Box::new(ab),
        Box::new(cd),
    )))));
    assert!(accepts(&t, b"abcdab"));
    assert!(!accepts(&t, b"abc"));
    assert!(accepts(&t, b""));
    assert!(accepts(&t, b"cd"));
}

#[test]
fn lower_bounded_quantifier() {
    let t = ParseTree::LQuantifier(leaf(b'a'), 2);
    assert!(!accepts(&t, b"a"));
    assert!(accepts(&t, b"aa"));
    assert!(accepts(&t, b"aaaaa"));
    assert!(!accepts(&t, b"aab"));
}

#[test]
fn upper_bounded_quantifier() {
    let t = ParseTree::UQuantifier(leaf(b'a'), 2);
    assert!(accepts(&t, b""));
    assert!(accepts(&t, b"a"));
    assert!(accepts(&t, b"aa"));
    assert!(!accepts(&t, b"aaa"));
}

#[test]
fn fixed_quantifier() {
    let t = ParseTree::FQuantifier(leaf(b'a'), 2);
    assert!(!accepts(&t, b"a"));
    assert!(accepts(&t, b"aa"));
    assert!(!accepts(&t, b"aaa"));
}

#[test]
fn question_mark() {
    let t = ParseTree::QMark(leaf(b'a'));
    assert!(accepts(&t, b""));
    assert!(accepts(&t, b"a"));
    assert!(!accepts(&t, b"aa"));
}

#[test]
fn zero_width_quantifier_is_epsilon() {
    let t = ParseTree::Quantifier(leaf(b'a'), 0, 0);
    assert!(accepts(&t, b""));
    assert!(!accepts(&t, b"a"));
}

#[test]
fn negated_class() {
    let t = ParseTree::NegCharClass(vec![ClassItem::Range(b'a', b'c')]);
    assert!(accepts(&t, b"d"));
    assert!(!accepts(&t, b"b"));
    assert!(accepts(&t, b"\x00"));
    assert!(accepts(&t, b"\xff"));
}

#[test]
fn double_single_toggle_cancels() {
    let t = ParseTree::CharClass(vec![ClassItem::Single(b'a'), ClassItem::Single(b'a')]);
    assert!(!accepts(&t, b"a"));
}

#[test]
fn overlapping_ranges_toggle_off() {
    let t = ParseTree::CharClass(vec![
        ClassItem::Range(b'a', b'c'),
        ClassItem::Range(b'a', b'b'),
    ]);
    assert!(accepts(&t, b"c"));
    assert!(!accepts(&t, b"a"));
    assert!(!accepts(&t, b"b"));
}

#[test]
fn reversed_quantifier_bounds_rejected() {
    let t = ParseTree::Quantifier(leaf(b'a'), 3, 2);
    assert!(matches!(compile(&t), Err(RegexError::QuantifierBounds)));
}

#[test]
fn too_many_positions_rejected() {
    let t = ParseTree::FQuantifier(leaf(b'a'), 256);
    assert!(matches!(compile(&t), Err(RegexError::TooManyPositions)));
}

#[test]
fn largest_position_count_compiles() {
    let t = ParseTree::FQuantifier(leaf(b'a'), 255);
    let aut = compile(&t).expect("255 positions fit the state numbering");
    let many = vec![b'a'; 255];
    assert!(check(&aut, &many));
    let few = vec![b'a'; 254];
    assert!(!check(&aut, &few));
}

#[test]
fn or_matches_either_side() {
    let t = ParseTree::Or(leaf(b'x'), leaf(b'y'));
    assert!(accepts(&t, b"x"));
    assert!(accepts(&t, b"y"));
    assert!(!accepts(&t, b"z"));
    assert!(!accepts(&t, b""));
}
