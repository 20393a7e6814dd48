use std::rc::Rc;
use glushkov::{Regex, ParseTree, ClassItem, findLambda, count_leaves, parse_to_AST,
    getQuantified, getLQuantified, build_class, augment, constructP, constructD, constructF,
    addstates, checkstate, compile, check, getStateLabels};

fn sorted(mut v: Vec<u8>) -> Vec<u8> {
    v.sort();
    v.dedup();
    v
}

fn sorted_pairs(mut v: Vec<(u8, u8)>) -> Vec<(u8, u8)> {
    v.sort();
    v.dedup();
    v
}

#[test]
fn nullability_oracle() {
    let a = Rc::new(Regex::Letter(b'a'));
    assert!(matches!(*findLambda(&a), Regex::Empty));
    let star = Rc::new(Regex::Star(a.clone()));
    assert!(matches!(*findLambda(&star), Regex::Eps));
    let cat = Rc::new(Regex::Concat(a.clone(), star.clone()));
    assert!(matches!(*findLambda(&cat), Regex::Empty));
    let or = Rc::new(Regex::Or(a.clone(), Rc::new(Regex::Eps)));
    assert!(matches!(*findLambda(&or), Regex::Eps));
    assert!(matches!(*findLambda(&Rc::new(Regex::Empty)), Regex::Empty));
}

#[test]
fn position_sets_of_starred_alternation() {
    // (a|b)* has two positions; every position can start, end, and follow
    // every other.
    let e = Rc::new(Regex::Star(Rc::new(Regex::Or(
        Rc::new(Regex::Letter(b'a')),
        Rc::new(Regex::Letter(b'b')),
    ))));
    let mut cnt: u8 = 0;
    let aug = augment(&e, &mut cnt);
    assert_eq!(cnt, 2);
    assert_eq!(sorted(constructP(&aug)), vec![0, 1]);
    assert_eq!(sorted(constructD(&aug)), vec![0, 1]);
    assert_eq!(
        sorted_pairs(constructF(&aug)),
        vec![(0, 0), (0, 1), (1, 0), (1, 1)]
    );
}

#[test]
fn position_sets_of_concat() {
    // ab: position 0 starts, position 1 ends, 1 follows 0.
    let e = Rc::new(Regex::Concat(
        Rc::new(Regex::Letter(b'a')),
        Rc::new(Regex::Letter(b'b')),
    ));
    let mut cnt: u8 = 0;
    let aug = augment(&e, &mut cnt);
    assert_eq!(cnt, 2);
    assert_eq!(sorted(constructP(&aug)), vec![0]);
    assert_eq!(sorted(constructD(&aug)), vec![1]);
    assert_eq!(sorted_pairs(constructF(&aug)), vec![(0, 1)]);
}

#[test]
fn predicate_table_rows_follow_leaf_order() {
    let e = Rc::new(Regex::Concat(
        Rc::new(Regex::Letter(b'a')),
        Rc::new(Regex::Letter(b'b')),
    ));
    let mut table: Vec<Vec<bool>> = Vec::new();
    addstates(&e, &mut table);
    assert_eq!(table.len(), 2);
    assert_eq!(table[0].len(), 256);
    assert!(table[0][b'a' as usize]);
    assert!(!table[0][b'b' as usize]);
    assert!(table[1][b'b' as usize]);
    assert!(!table[1][b'a' as usize]);
}

#[test]
fn class_table_toggles() {
    let v = build_class(&vec![ClassItem::Single(b'a'), ClassItem::Single(b'a')], false);
    assert_eq!(v.len(), 256);
    assert!(!v[b'a' as usize]);
    let v2 = build_class(
        &vec![ClassItem::Range(b'a', b'c'), ClassItem::Range(b'a', b'b')],
        false,
    );
    assert!(v2[b'c' as usize]);
    assert!(!v2[b'a' as usize]);
    assert!(!v2[b'b' as usize]);
    let v3 = build_class(&vec![ClassItem::Single(b'z')], true);
    assert!(!v3[b'z' as usize]);
    assert!(v3[b'a' as usize]);
}

#[test]
fn quantifier_desugaring_drives_counters_to_zero() {
    let e = Rc::new(Regex::Letter(b'a'));
    let mut lo: u32 = 2;
    let mut hi: u32 = 3;
    let q = getQuantified(&e, &mut lo, &mut hi);
    assert_eq!(lo, 0);
    assert_eq!(hi, 0);
    assert_eq!(count_leaves(&q), 3);
    let mut lo2: u32 = 2;
    let lq = getLQuantified(&e, &mut lo2);
    assert_eq!(lo2, 0);
    assert_eq!(count_leaves(&lq), 3);
}

#[test]
fn tree_builder_desugars_plus() {
    // a+ becomes Concat(a, Star(a)).
    let t = ParseTree::Plus(Box::new(ParseTree::Letter(b'a')));
    let e = parse_to_AST(&t).expect("well-formed tree");
    match &*e {
        Regex::Concat(l, r) => {
            assert!(matches!(**l, Regex::Letter(b'a')));
            assert!(matches!(**r, Regex::Star(_)));
        },
        _ => panic!("expected a concatenation"),
    }
}

#[test]
fn checkstate_looks_up_final_states() {
    let finals: Vec<u8> = vec![2, 5];
    assert!(checkstate(2, &finals));
    assert!(checkstate(5, &finals));
    assert!(!checkstate(0, &finals));
    assert!(!checkstate(3, &finals));
}

#[test]
fn empty_string_accepted_iff_nullable() {
    // Cross-check of the nullability oracle against the automaton.
    let nullable_pattern = ParseTree::Star(Box::new(ParseTree::Letter(b'a')));
    let aut = compile(&nullable_pattern).unwrap();
    assert!(check(&aut, b""));
    let plain = ParseTree::Letter(b'a');
    let aut2 = compile(&plain).unwrap();
    assert!(!check(&aut2, b""));
}

#[test]
fn automaton_shape_of_concat() {
    let t = ParseTree::Concat(
        Box::new(ParseTree::Letter(b'a')),
        Box::new(ParseTree::Letter(b'b')),
    );
    let aut = compile(&t).unwrap();
    assert_eq!(aut.n_positions, 2);
    assert_eq!(aut.nfa.len(), 3);
    assert_eq!(aut.state_letter.len(), 2);
    assert!(!aut.is_nullable);
    assert_eq!(sorted(aut.nfa[0].clone()), vec![1]);
    assert_eq!(sorted(aut.nfa[1].clone()), vec![2]);
    assert_eq!(sorted(aut.nfa[2].clone()), vec![]);
    assert_eq!(sorted(aut.final_states.clone()), vec![2]);
}

#[test]
fn state_labels_follow_leaf_order() {
    // b[a-c]d? has three source leaves.
    let t = ParseTree::Concat(
        Box::new(ParseTree::Letter(b'b')),
        Box::new(ParseTree::Concat(
            Box::new(ParseTree::CharClass(vec![ClassItem::Range(b'a', b'c')])),
            Box::new(ParseTree::QMark(Box::new(ParseTree::Letter(b'd')))),
        )),
    );
    let mut labels: Vec<Vec<u8>> = Vec::new();
    getStateLabels(&t, &mut labels);
    assert_eq!(labels.len(), 3);
    assert_eq!(labels[0], b"b".to_vec());
    assert_eq!(labels[1], b"[a-c]".to_vec());
    assert_eq!(labels[2], b"d".to_vec());
    let neg = ParseTree::NegCharClass(vec![
        ClassItem::Range(b'5', b'9'),
        ClassItem::Single(b'x'),
    ]);
    let mut labels2: Vec<Vec<u8>> = Vec::new();
    getStateLabels(&neg, &mut labels2);
    assert_eq!(labels2, vec![b"[^5-9x]".to_vec()]);
}
