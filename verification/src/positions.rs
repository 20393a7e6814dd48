use vstd::prelude::*;
use std::rc::Rc;
use crate::ast::{Regex, nullable, leafcount, findLambda, or_of, concat_of, star_of};

verus! {

/// First-position set of a tree whose leaves carry position ids: the ids
/// that can match the first symbol of some string in the language.
pub open spec fn firstpos_t(e: Regex) -> Set<u8>
    decreases e,
{
    match e {
        Regex::Or(a, b) => firstpos_t(*a).union(firstpos_t(*b)),
        Regex::Concat(a, b) => if nullable(*a) {
            firstpos_t(*a).union(firstpos_t(*b))
        } else {
            firstpos_t(*a)
        },
        Regex::Star(a) => firstpos_t(*a),
        Regex::Letter(x) => Set::empty().insert(x),
        _ => Set::empty(),
    }
}

/// Last-position set: the mirror image of `firstpos_t`, passing through a
/// `Concat` from the right when its right operand is nullable.
pub open spec fn lastpos_t(e: Regex) -> Set<u8>
    decreases e,
{
    match e {
        Regex::Or(a, b) => lastpos_t(*a).union(lastpos_t(*b)),
        Regex::Concat(a, b) => if nullable(*b) {
            lastpos_t(*a).union(lastpos_t(*b))
        } else {
            lastpos_t(*b)
        },
        Regex::Star(a) => lastpos_t(*a),
        Regex::Letter(x) => Set::empty().insert(x),
        _ => Set::empty(),
    }
}

/// All pairs with the first component in `d` and the second in `p`.
pub open spec fn cross_t(d: Set<u8>, p: Set<u8>) -> Set<(u8, u8)> {
    Set::new(|pr: (u8, u8)| d.contains(pr.0) && p.contains(pr.1))
}

/// Follow-pair set: `(i, j)` when position `j` can immediately follow a
/// match of position `i`.  `Concat` links the last positions of the left
/// operand to the first positions of the right one; `Star` closes the loop.
pub open spec fn follow_t(e: Regex) -> Set<(u8, u8)>
    decreases e,
{
    match e {
        Regex::Or(a, b) => follow_t(*a).union(follow_t(*b)),
        Regex::Concat(a, b) => follow_t(*a).union(follow_t(*b)).union(
            cross_t(lastpos_t(*a), firstpos_t(*b)),
        ),
        Regex::Star(a) => follow_t(*a).union(cross_t(lastpos_t(*a), firstpos_t(*a))),
        _ => Set::empty(),
    }
}

/// The membership row of a position that accepts exactly the byte `x`.
pub open spec fn letter_row(x: u8) -> Seq<bool> {
    Seq::new(256, |i: int| i == x as int)
}

/// The predicate table of an expression before augmentation: one
/// 256-entry membership row per leaf, in left-to-right leaf order — the
/// same order in which augmentation hands out position ids.
pub open spec fn predicates(e: Regex) -> Seq<Seq<bool>>
    decreases e,
{
    match e {
        Regex::Letter(x) => seq![letter_row(x)],
        Regex::CharClass(v) => seq![v@],
        Regex::Or(a, b) => predicates(*a) + predicates(*b),
        Regex::Concat(a, b) => predicates(*a) + predicates(*b),
        Regex::Star(a) => predicates(*a),
        _ => Seq::empty(),
    }
}

pub proof fn lemma_predicates_len(e: &Regex)
    ensures
        predicates(*e).len() == leafcount(*e),
    decreases *e,
{
    match e {
        Regex::Or(a, b) => {
            lemma_predicates_len(&**a);
            lemma_predicates_len(&**b);
        },
        Regex::Concat(a, b) => {
            lemma_predicates_len(&**a);
            lemma_predicates_len(&**b);
        },
        Regex::Star(a) => lemma_predicates_len(&**a),
        _ => {},
    }
}

/// The tree that augmentation returns when its counter starts at `c`:
/// every leaf becomes a `Letter` holding the next id, counted left to
/// right; the shape is otherwise preserved.
pub open spec fn augmented(e: Regex, c: nat) -> Regex
    decreases e,
{
    match e {
        Regex::Empty => Regex::Empty,
        Regex::Eps => Regex::Eps,
        Regex::Letter(_) => Regex::Letter(c as u8),
        Regex::CharClass(_) => Regex::Letter(c as u8),
        Regex::Or(a, b) => or_of(augmented(*a, c), augmented(*b, c + leafcount(*a))),
        Regex::Concat(a, b) => concat_of(augmented(*a, c), augmented(*b, c + leafcount(*a))),
        Regex::Star(a) => star_of(augmented(*a, c)),
    }
}

/// Replaces every leaf with a `Letter` holding the next unused position
/// id, threading the counter left to right through the whole traversal.
#[allow(non_snake_case)]
pub fn augment(regexp: &Rc<Regex>, cnt: &mut u8) -> (r: Rc<Regex>)
    requires
        *old(cnt) + leafcount(**regexp) <= 255,
    ensures
        *r == augmented(**regexp, *old(cnt) as nat),
        *final(cnt) as nat == *old(cnt) as nat + leafcount(**regexp),
    decreases **regexp,
{
    match &**regexp {
        Regex::Letter(_) => {
            let val = *cnt;
            *cnt = *cnt + 1;
            Rc::new(Regex::Letter(val))
        },
        Regex::CharClass(_) => {
            let val = *cnt;
            *cnt = *cnt + 1;
            Rc::new(Regex::Letter(val))
        },
        Regex::Or(r1, r2) => Rc::new(Regex::Or(augment(r1, cnt), augment(r2, cnt))),
        Regex::Concat(r1, r2) => Rc::new(Regex::Concat(augment(r1, cnt), augment(r2, cnt))),
        Regex::Star(r1) => Rc::new(Regex::Star(augment(r1, cnt))),
        Regex::Empty => Rc::new(Regex::Empty),
        Regex::Eps => Rc::new(Regex::Eps),
    }
}

pub proof fn lemma_concat_to_set<A>(a: Seq<A>, b: Seq<A>)
    ensures
        (a + b).to_set() == a.to_set().union(b.to_set()),
{
    assert forall|x: A| #[trigger] (a + b).to_set().contains(x) implies a.to_set().union(
        b.to_set(),
    ).contains(x) by {
        let i = choose|i: int| 0 <= i < (a + b).len() && (a + b)[i] == x;
        if i < a.len() {
            assert(a[i] == x);
        } else {
            assert(b[i - a.len()] == x);
        }
    }
    assert forall|x: A| a.to_set().union(b.to_set()).contains(x) implies #[trigger] (a
        + b).to_set().contains(x) by {
        if a.to_set().contains(x) {
            let i = choose|i: int| 0 <= i < a.len() && a[i] == x;
            assert((a + b)[i] == x);
        } else {
            let i = choose|i: int| 0 <= i < b.len() && b[i] == x;
            assert((a + b)[a.len() + i] == x);
        }
    }
    assert((a + b).to_set() =~= a.to_set().union(b.to_set()));
}

/// Collects the first-position set of the expression, as the set of
/// position ids of an augmented tree.
#[allow(non_snake_case)]
pub fn constructP(regexp: &Rc<Regex>) -> (r: Vec<u8>)
    ensures
        r@.to_set() == firstpos_t(**regexp),
    decreases **regexp,
{
    match &**regexp {
        Regex::Or(r1, r2) => {
            let mut s1 = constructP(r1);
            let mut s2 = constructP(r2);
            proof {
                lemma_concat_to_set(s1@, s2@);
            }
            s1.append(&mut s2);
            s1
        },
        Regex::Concat(r1, r2) => {
            let s = findLambda(r1);
            if matches!(*s, Regex::Empty) {
                constructP(r1)
            } else {
                let mut s1 = constructP(r1);
                let mut s2 = constructP(r2);
                proof {
                    lemma_concat_to_set(s1@, s2@);
                }
                s1.append(&mut s2);
                s1
            }
        },
        Regex::Star(r1) => constructP(r1),
        Regex::Letter(x) => {
            let mut hset: Vec<u8> = Vec::new();
            hset.push(*x);
            proof {
                assert(hset@[0] == *x);
                assert(hset@.to_set() =~= Set::empty().insert(*x));
            }
            hset
        },
        _ => {
            let hset: Vec<u8> = Vec::new();
            proof {
                assert(hset@.to_set() =~= Set::<u8>::empty());
            }
            hset
        },
    }
}

/// Collects the last-position set of the expression, as the set of
/// position ids of an augmented tree; it doubles as the automaton's
/// final-state set.
#[allow(non_snake_case)]
pub fn constructD(regexp: &Rc<Regex>) -> (r: Vec<u8>)
    ensures
        r@.to_set() == lastpos_t(**regexp),
    decreases **regexp,
{
    match &**regexp {
        Regex::Or(r1, r2) => {
            let mut s1 = constructD(r1);
            let mut s2 = constructD(r2);
            proof {
                lemma_concat_to_set(s1@, s2@);
            }
            s1.append(&mut s2);
            s1
        },
        Regex::Concat(r1, r2) => {
            let s = findLambda(r2);
            if matches!(*s, Regex::Empty) {
                constructD(r2)
            } else {
                let mut s1 = constructD(r1);
                let mut s2 = constructD(r2);
                proof {
                    lemma_concat_to_set(s1@, s2@);
                }
                s1.append(&mut s2);
                s1
            }
        },
        Regex::Star(r1) => constructD(r1),
        Regex::Letter(x) => {
            let mut hset: Vec<u8> = Vec::new();
            hset.push(*x);
            proof {
                assert(hset@[0] == *x);
                assert(hset@.to_set() =~= Set::empty().insert(*x));
            }
            hset
        },
        _ => {
            let hset: Vec<u8> = Vec::new();
            proof {
                assert(hset@.to_set() =~= Set::<u8>::empty());
            }
            hset
        },
    }
}

/// Pushes every pair of `d × p` onto `acc`.
fn push_cross(acc: &mut Vec<(u8, u8)>, d: &Vec<u8>, p: &Vec<u8>)
    ensures
        final(acc)@.to_set() == old(acc)@.to_set().union(cross_t(d@.to_set(), p@.to_set())),
{
    let ghost start = acc@;
    let mut i: usize = 0;
    while i < d.len()
        invariant
            i <= d@.len(),
            forall|pr: (u8, u8)| #[trigger]
                acc@.to_set().contains(pr) <==> start.to_set().contains(pr) || (exists|
                    k: int,
                    l: int,
                |
                    0 <= k < i && 0 <= l < p@.len() && #[trigger] d@[k] == pr.0 && #[trigger] p@[l]
                        == pr.1),
        decreases d@.len() - i,
    {
        let mut j: usize = 0;
        while j < p.len()
            invariant
                i < d@.len(),
                j <= p@.len(),
                forall|pr: (u8, u8)| #[trigger]
                    acc@.to_set().contains(pr) <==> start.to_set().contains(pr) || (exists|
                        k: int,
                        l: int,
                    |
                        0 <= k < i && 0 <= l < p@.len() && #[trigger] d@[k] == pr.0
                            && #[trigger] p@[l] == pr.1) || (exists|l: int|
                        0 <= l < j && d@[i as int] == pr.0 && #[trigger] p@[l] == pr.1),
            decreases p@.len() - j,
        {
            let pair = (d[i], p[j]);
            let ghost prev = acc@;
            acc.push(pair);
            proof {
                prev.lemma_push_to_set_commute(pair);
                assert(acc@ == prev.push(pair));
                assert forall|pr: (u8, u8)| #[trigger] acc@.to_set().contains(pr) implies
                    start.to_set().contains(pr) || (exists|k: int, l: int|
                        0 <= k < i && 0 <= l < p@.len() && #[trigger] d@[k] == pr.0
                            && #[trigger] p@[l] == pr.1) || (exists|l: int|
                        0 <= l < j + 1 && d@[i as int] == pr.0 && #[trigger] p@[l] == pr.1) by {
                    if pr == pair {
                        assert(d@[i as int] == pr.0 && p@[j as int] == pr.1);
                    }
                }
                assert forall|pr: (u8, u8)|
                    start.to_set().contains(pr) || (exists|k: int, l: int|
                        0 <= k < i && 0 <= l < p@.len() && #[trigger] d@[k] == pr.0
                            && #[trigger] p@[l] == pr.1) || (exists|l: int|
                        0 <= l < j + 1 && d@[i as int] == pr.0 && #[trigger] p@[l] == pr.1)
                    implies #[trigger] acc@.to_set().contains(pr) by {
                    if !prev.to_set().contains(pr) && !start.to_set().contains(pr) {
                        assert(pr == pair);
                    }
                }
            }
            j = j + 1;
        }
        proof {
            assert forall|pr: (u8, u8)| #[trigger] acc@.to_set().contains(pr) implies
                start.to_set().contains(pr) || (exists|k: int, l: int|
                    0 <= k < i + 1 && 0 <= l < p@.len() && #[trigger] d@[k] == pr.0
                        && #[trigger] p@[l] == pr.1) by {
                if !start.to_set().contains(pr) {
                    if exists|l: int| 0 <= l < j && d@[i as int] == pr.0 && #[trigger] p@[l]
                        == pr.1 {
                        let l = choose|l: int|
                            0 <= l < j && d@[i as int] == pr.0 && #[trigger] p@[l] == pr.1;
                        assert(0 <= i < i + 1 && 0 <= l < p@.len() && d@[i as int] == pr.0
                            && p@[l] == pr.1);
                    }
                }
            }
        }
        i = i + 1;
    }
    proof {
        assert forall|pr: (u8, u8)| #[trigger]
            cross_t(d@.to_set(), p@.to_set()).contains(pr) implies acc@.to_set().contains(pr) by {
            let k = choose|k: int| 0 <= k < d@.len() && d@[k] == pr.0;
            let l = choose|l: int| 0 <= l < p@.len() && p@[l] == pr.1;
            assert(0 <= k < i && 0 <= l < p@.len() && d@[k] == pr.0 && p@[l] == pr.1);
        }
        assert forall|pr: (u8, u8)| #[trigger] acc@.to_set().contains(pr) &&
            !start.to_set().contains(pr) implies cross_t(d@.to_set(), p@.to_set()).contains(
            pr,
        ) by {
            let (k, l) = choose|k: int, l: int|
                0 <= k < i && 0 <= l < p@.len() && #[trigger] d@[k] == pr.0 && #[trigger] p@[l]
                    == pr.1;
            assert(d@.to_set().contains(pr.0));
            assert(p@.to_set().contains(pr.1));
        }
        assert(acc@.to_set() =~= start.to_set().union(cross_t(d@.to_set(), p@.to_set())));
    }
}

/// Collects the follow-pair set of the expression: the edges of the
/// automaton among symbol positions.
#[allow(non_snake_case)]
pub fn constructF(regexp: &Rc<Regex>) -> (r: Vec<(u8, u8)>)
    ensures
        r@.to_set() == follow_t(**regexp),
    decreases **regexp,
{
    match &**regexp {
        Regex::Or(r1, r2) => {
            let mut s1 = constructF(r1);
            let mut s2 = constructF(r2);
            proof {
                lemma_concat_to_set(s1@, s2@);
            }
            s1.append(&mut s2);
            s1
        },
        Regex::Concat(r1, r2) => {
            let mut s1 = constructF(r1);
            let mut s2 = constructF(r2);
            proof {
                lemma_concat_to_set(s1@, s2@);
            }
            s1.append(&mut s2);
            let hs1 = constructD(r1);
            let hs2 = constructP(r2);
            push_cross(&mut s1, &hs1, &hs2);
            s1
        },
        Regex::Star(r1) => {
            let mut s1 = constructF(r1);
            let hs1 = constructD(r1);
            let hs2 = constructP(r1);
            push_cross(&mut s1, &hs1, &hs2);
            s1
        },
        _ => {
            let hset: Vec<(u8, u8)> = Vec::new();
            proof {
                assert(hset@.to_set() =~= Set::<(u8, u8)>::empty());
            }
            hset
        },
    }
}

/// Appends one 256-entry membership row per leaf of the expression, in
/// left-to-right leaf order: the predicate table rows that the positions
/// of the augmented tree refer to.
pub fn addstates(regexp: &Rc<Regex>, state_letter: &mut Vec<Vec<bool>>)
    ensures
        final(state_letter)@.len() == old(state_letter)@.len() + predicates(**regexp).len(),
        forall|j: int|
            0 <= j < old(state_letter)@.len() ==> final(state_letter)@[j] == old(
                state_letter,
            )@[j],
        forall|j: int|
            old(state_letter)@.len() <= j < final(state_letter)@.len()
                ==> #[trigger] final(state_letter)@[j]@ == predicates(**regexp)[
                j - old(state_letter)@.len()
            ],
    decreases **regexp,
{
    match &**regexp {
        Regex::Letter(a) => {
            let t0 = *a;
            let mut v1: Vec<bool> = Vec::new();
            let mut i: usize = 0;
            while i < 256
                invariant
                    i <= 256,
                    v1@.len() == i,
                    forall|b: int| 0 <= b < i ==> v1@[b] == (b == t0 as int),
                decreases 256 - i,
            {
                v1.push(i == t0 as usize);
                i = i + 1;
            }
            proof {
                assert(v1@ =~= letter_row(t0));
            }
            state_letter.push(v1);
        },
        Regex::CharClass(a) => {
            let mut v1: Vec<bool> = Vec::new();
            let mut i: usize = 0;
            while i < a.len()
                invariant
                    i <= a@.len(),
                    v1@.len() == i,
                    forall|b: int| 0 <= b < i ==> v1@[b] == a@[b],
                decreases a@.len() - i,
            {
                v1.push(a[i]);
                i = i + 1;
            }
            proof {
                assert(v1@ =~= a@);
            }
            state_letter.push(v1);
        },
        Regex::Or(r1, r2) => {
            addstates(r1, state_letter);
            addstates(r2, state_letter);
        },
        Regex::Concat(r1, r2) => {
            addstates(r1, state_letter);
            addstates(r2, state_letter);
        },
        Regex::Star(r1) => addstates(r1, state_letter),
        _ => {},
    }
}

} // verus!
