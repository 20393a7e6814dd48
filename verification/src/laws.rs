use vstd::prelude::*;
use crate::ast::{Regex, nullable, leafcount, or_of, concat_of, star_of};
use crate::positions::{augmented, predicates, lemma_predicates_len};
use crate::sets::{fp, dp, fl, cross, lemma_sets_in_range, lemma_sets_shift, leafcount_of};
use crate::automaton::{Automaton, aut_wf, accepts_from, is_final, rows, rows_b, path_accepts, glushkov_accepts};

verus! {

/// The nullability oracle and the automaton agree on the empty string:
/// the empty string is accepted exactly when the expression is nullable,
/// and the search part of the matcher alone never accepts it, because
/// the virtual start state is never a final state.
pub proof fn lemma_nullable_iff_empty_accepted(aut: Automaton, s: Seq<u8>)
    requires
        aut_wf(aut),
        s.len() == 0,
    ensures
        glushkov_accepts(aut.src@, s) == nullable(aut.src@),
        !accepts_from(rows(aut.nfa), aut.final_states@, rows_b(aut.state_letter), s, 0, 0),
{
    if is_final(aut.final_states@, 0) {
        let j = choose|j: int|
            0 <= j < aut.final_states@.len() && aut.final_states@[j] as int == 0;
        assert(aut.final_states@.contains(aut.final_states@[j]));
    }
}

/// The language of `Star(e)` always contains the empty string.
pub proof fn lemma_star_accepts_empty(e: Regex, s: Seq<u8>)
    requires
        s.len() == 0,
    ensures
        glushkov_accepts(star_of(e), s),
{
    assert(nullable(star_of(e)));
}

/// `Eps` is a right identity of `Concat`: `Concat(e, Eps)` accepts
/// exactly the strings `e` accepts.
pub proof fn lemma_concat_eps_right(e: Regex, s: Seq<u8>)
    ensures
        glushkov_accepts(concat_of(e, Regex::Eps), s) == glushkov_accepts(e, s),
{
    let ce = concat_of(e, Regex::Eps);
    let lce = leafcount(e) as int;
    assert(nullable(Regex::Eps));
    assert(leafcount(Regex::Eps) == 0);
    assert(nullable(ce) == nullable(e));
    assert(leafcount(ce) == leafcount(e));
    assert(fp(Regex::Eps, lce) =~= Set::<int>::empty());
    assert(dp(Regex::Eps, lce) =~= Set::<int>::empty());
    assert(fl(Regex::Eps, lce) =~= Set::<(int, int)>::empty());
    assert(fp(ce, 0) =~= fp(e, 0));
    assert(dp(ce, 0) =~= dp(e, 0));
    assert forall|pr: (int, int)| #[trigger] fl(ce, 0).contains(pr) implies fl(e, 0).contains(
        pr,
    ) by {
        if cross(dp(e, 0), fp(Regex::Eps, lce)).contains(pr) {
            assert(fp(Regex::Eps, lce).contains(pr.1));
        }
    }
    assert(fl(ce, 0) =~= fl(e, 0));
    assert(predicates(Regex::Eps) == Seq::<Seq<bool>>::empty());
    assert(predicates(ce) =~= predicates(e));
}

/// `Eps` is a left identity of `Concat`: `Concat(Eps, e)` accepts
/// exactly the strings `e` accepts.
pub proof fn lemma_concat_eps_left(e: Regex, s: Seq<u8>)
    ensures
        glushkov_accepts(concat_of(Regex::Eps, e), s) == glushkov_accepts(e, s),
{
    let ce = concat_of(Regex::Eps, e);
    assert(nullable(Regex::Eps));
    assert(leafcount(Regex::Eps) == 0);
    assert(nullable(ce) == nullable(e));
    assert(leafcount(ce) == leafcount(e));
    assert(fp(Regex::Eps, 0) =~= Set::<int>::empty());
    assert(dp(Regex::Eps, 0) =~= Set::<int>::empty());
    assert(fl(Regex::Eps, 0) =~= Set::<(int, int)>::empty());
    assert(fp(ce, 0) =~= fp(e, 0));
    assert(dp(ce, 0) =~= dp(e, 0));
    assert forall|pr: (int, int)| #[trigger] fl(ce, 0).contains(pr) implies fl(e, 0).contains(
        pr,
    ) by {
        if cross(dp(Regex::Eps, 0), fp(e, 0)).contains(pr) {
            assert(dp(Regex::Eps, 0).contains(pr.0));
        }
    }
    assert(fl(ce, 0) =~= fl(e, 0));
    assert(predicates(Regex::Eps) == Seq::<Seq<bool>>::empty());
    assert(predicates(ce) =~= predicates(e));
}

/// A follow-path of the left alternative is a follow-path of the
/// alternation.
proof fn lemma_path_into_or_left(e1: &Regex, e2: &Regex, s: Seq<u8>, p: int, idx: int)
    requires
        0 <= idx <= s.len(),
        path_accepts(fl(*e1, 0), dp(*e1, 0), predicates(*e1), s, p, idx),
    ensures
        path_accepts(
            fl(or_of(*e1, *e2), 0),
            dp(or_of(*e1, *e2), 0),
            predicates(or_of(*e1, *e2)),
            s,
            p,
            idx,
        ),
    decreases s.len() - idx,
{
    let or = or_of(*e1, *e2);
    let lc1 = leafcount_of(e1) as int;
    lemma_sets_in_range(e1, 0);
    lemma_predicates_len(e1);
    lemma_predicates_len(e2);
    assert(fl(or, 0) == fl(*e1, 0).union(fl(*e2, lc1)));
    assert(dp(or, 0) == dp(*e1, 0).union(dp(*e2, lc1)));
    assert(predicates(or) == predicates(*e1) + predicates(*e2));
    if idx >= s.len() {
        assert(dp(or, 0).contains(p));
    } else {
        let q = choose|q: int|
            #[trigger] fl(*e1, 0).contains((p, q)) && 0 <= q < predicates(*e1).len()
                && predicates(*e1)[q][s[idx] as int] && path_accepts(
                fl(*e1, 0),
                dp(*e1, 0),
                predicates(*e1),
                s,
                q,
                idx + 1,
            );
        lemma_path_into_or_left(e1, e2, s, q, idx + 1);
        assert(fl(or, 0).contains((p, q)));
        assert(predicates(or)[q] == predicates(*e1)[q]);
        assert(fl(or, 0).contains((p, q)) && 0 <= q < predicates(or).len() && predicates(or)[q][
            s[idx] as int
        ] && path_accepts(fl(or, 0), dp(or, 0), predicates(or), s, q, idx + 1));
    }
}

/// A follow-path of the right alternative, translated by the left
/// alternative's position count, is a follow-path of the alternation.
proof fn lemma_path_into_or_right(e1: &Regex, e2: &Regex, s: Seq<u8>, p: int, idx: int)
    requires
        0 <= idx <= s.len(),
        path_accepts(fl(*e2, 0), dp(*e2, 0), predicates(*e2), s, p, idx),
    ensures
        path_accepts(
            fl(or_of(*e1, *e2), 0),
            dp(or_of(*e1, *e2), 0),
            predicates(or_of(*e1, *e2)),
            s,
            p + leafcount(*e1),
            idx,
        ),
    decreases s.len() - idx,
{
    let or = or_of(*e1, *e2);
    let lc1 = leafcount_of(e1) as int;
    lemma_sets_in_range(e2, 0);
    lemma_sets_shift(e2, 0, lc1);
    lemma_predicates_len(e1);
    lemma_predicates_len(e2);
    assert(fl(or, 0) == fl(*e1, 0).union(fl(*e2, lc1)));
    assert(dp(or, 0) == dp(*e1, 0).union(dp(*e2, lc1)));
    assert(predicates(or) == predicates(*e1) + predicates(*e2));
    if idx >= s.len() {
        assert(dp(*e2, 0).contains(p));
        assert(dp(*e2, lc1).contains(p + lc1));
        assert(dp(or, 0).contains(p + lc1));
    } else {
        let q = choose|q: int|
            #[trigger] fl(*e2, 0).contains((p, q)) && 0 <= q < predicates(*e2).len()
                && predicates(*e2)[q][s[idx] as int] && path_accepts(
                fl(*e2, 0),
                dp(*e2, 0),
                predicates(*e2),
                s,
                q,
                idx + 1,
            );
        lemma_path_into_or_right(e1, e2, s, q, idx + 1);
        assert(fl(*e2, lc1).contains((p + lc1, q + lc1)));
        assert(fl(or, 0).contains((p + lc1, q + lc1)));
        assert(predicates(or)[q + lc1] == predicates(*e2)[q]);
        assert(fl(or, 0).contains((p + lc1, q + lc1)) && 0 <= q + lc1 < predicates(or).len()
            && predicates(or)[q + lc1][s[idx] as int] && path_accepts(
            fl(or, 0),
            dp(or, 0),
            predicates(or),
            s,
            q + lc1,
            idx + 1,
        ));
    }
}

/// A follow-path of the alternation never crosses between the two
/// alternatives: it is a follow-path of whichever alternative its
/// starting position belongs to.
proof fn lemma_path_from_or(e1: &Regex, e2: &Regex, s: Seq<u8>, p: int, idx: int)
    requires
        0 <= idx <= s.len(),
        0 <= p < leafcount(*e1) + leafcount(*e2),
        path_accepts(
            fl(or_of(*e1, *e2), 0),
            dp(or_of(*e1, *e2), 0),
            predicates(or_of(*e1, *e2)),
            s,
            p,
            idx,
        ),
    ensures
        p < leafcount(*e1) ==> path_accepts(fl(*e1, 0), dp(*e1, 0), predicates(*e1), s, p, idx),
        p >= leafcount(*e1) ==> path_accepts(
            fl(*e2, 0),
            dp(*e2, 0),
            predicates(*e2),
            s,
            p - leafcount(*e1),
            idx,
        ),
    decreases s.len() - idx,
{
    let or = or_of(*e1, *e2);
    let lc1 = leafcount_of(e1) as int;
    let lc2 = leafcount_of(e2) as int;
    lemma_sets_in_range(e1, 0);
    lemma_sets_in_range(e2, lc1);
    lemma_sets_shift(e2, lc1, 0);
    lemma_predicates_len(e1);
    lemma_predicates_len(e2);
    assert(fl(or, 0) == fl(*e1, 0).union(fl(*e2, lc1)));
    assert(dp(or, 0) == dp(*e1, 0).union(dp(*e2, lc1)));
    assert(predicates(or) == predicates(*e1) + predicates(*e2));
    if idx >= s.len() {
        if p < lc1 {
            assert(!dp(*e2, lc1).contains(p));
            assert(dp(*e1, 0).contains(p));
        } else {
            assert(!dp(*e1, 0).contains(p));
            assert(dp(*e2, lc1).contains(p));
            assert(dp(*e2, 0).contains(p - lc1 + 0));
        }
    } else {
        let q = choose|q: int|
            #[trigger] fl(or, 0).contains((p, q)) && 0 <= q < predicates(or).len()
                && predicates(or)[q][s[idx] as int] && path_accepts(
                fl(or, 0),
                dp(or, 0),
                predicates(or),
                s,
                q,
                idx + 1,
            );
        if p < lc1 {
            assert(!fl(*e2, lc1).contains((p, q)));
            assert(fl(*e1, 0).contains((p, q)));
            assert(0 <= q < lc1);
            lemma_path_from_or(e1, e2, s, q, idx + 1);
            assert(predicates(or)[q] == predicates(*e1)[q]);
            assert(fl(*e1, 0).contains((p, q)) && 0 <= q < predicates(*e1).len() && predicates(
                *e1,
            )[q][s[idx] as int] && path_accepts(
                fl(*e1, 0),
                dp(*e1, 0),
                predicates(*e1),
                s,
                q,
                idx + 1,
            ));
        } else {
            assert(!fl(*e1, 0).contains((p, q)));
            assert(fl(*e2, lc1).contains((p, q)));
            assert(lc1 <= q < lc1 + lc2);
            assert(fl(*e2, 0).contains((p - lc1 + 0, q - lc1 + 0)));
            lemma_path_from_or(e1, e2, s, q, idx + 1);
            assert(predicates(or)[q] == predicates(*e2)[q - lc1]);
            assert(fl(*e2, 0).contains((p - lc1, q - lc1)) && 0 <= q - lc1 < predicates(
                *e2,
            ).len() && predicates(*e2)[q - lc1][s[idx] as int] && path_accepts(
                fl(*e2, 0),
                dp(*e2, 0),
                predicates(*e2),
                s,
                q - lc1,
                idx + 1,
            ));
        }
    }
}

/// Alternation distributes over matching: `Or(e1, e2)` accepts a string
/// exactly when `e1` accepts it or `e2` accepts it.
pub proof fn lemma_or_accepts(e1: Regex, e2: Regex, s: Seq<u8>)
    ensures
        glushkov_accepts(or_of(e1, e2), s) == (glushkov_accepts(e1, s) || glushkov_accepts(
            e2,
            s,
        )),
{
    let or = or_of(e1, e2);
    let lc1 = leafcount_of(&e1) as int;
    let lc2 = leafcount_of(&e2) as int;
    lemma_sets_in_range(&e1, 0);
    lemma_sets_in_range(&e2, 0);
    lemma_sets_in_range(&e2, lc1);
    lemma_sets_shift(&e2, 0, lc1);
    lemma_sets_shift(&e2, lc1, 0);
    lemma_predicates_len(&e1);
    lemma_predicates_len(&e2);
    assert(fp(or, 0) == fp(e1, 0).union(fp(e2, lc1)));
    assert(predicates(or) == predicates(e1) + predicates(e2));
    assert(nullable(or) == (nullable(e1) || nullable(e2)));
    if s.len() == 0 {
    } else {
        if glushkov_accepts(or, s) {
            let q = choose|q: int|
                #[trigger] fp(or, 0).contains(q) && 0 <= q < predicates(or).len() && predicates(
                    or,
                )[q][s[0] as int] && path_accepts(fl(or, 0), dp(or, 0), predicates(or), s, q, 1);
            if fp(e1, 0).contains(q) {
                assert(0 <= q < lc1);
                lemma_path_from_or(&e1, &e2, s, q, 1);
                assert(predicates(or)[q] == predicates(e1)[q]);
                assert(fp(e1, 0).contains(q) && 0 <= q < predicates(e1).len() && predicates(e1)[
                    q
                ][s[0] as int] && path_accepts(fl(e1, 0), dp(e1, 0), predicates(e1), s, q, 1));
                assert(glushkov_accepts(e1, s));
            } else {
                assert(fp(e2, lc1).contains(q));
                assert(lc1 <= q < lc1 + lc2);
                assert(fp(e2, 0).contains(q - lc1 + 0));
                lemma_path_from_or(&e1, &e2, s, q, 1);
                assert(predicates(or)[q] == predicates(e2)[q - lc1]);
                assert(fp(e2, 0).contains(q - lc1) && 0 <= q - lc1 < predicates(e2).len()
                    && predicates(e2)[q - lc1][s[0] as int] && path_accepts(
                    fl(e2, 0),
                    dp(e2, 0),
                    predicates(e2),
                    s,
                    q - lc1,
                    1,
                ));
                assert(glushkov_accepts(e2, s));
            }
        }
        if glushkov_accepts(e1, s) {
            let q = choose|q: int|
                #[trigger] fp(e1, 0).contains(q) && 0 <= q < predicates(e1).len() && predicates(
                    e1,
                )[q][s[0] as int] && path_accepts(fl(e1, 0), dp(e1, 0), predicates(e1), s, q, 1);
            lemma_path_into_or_left(&e1, &e2, s, q, 1);
            assert(fp(or, 0).contains(q));
            assert(predicates(or)[q] == predicates(e1)[q]);
            assert(fp(or, 0).contains(q) && 0 <= q < predicates(or).len() && predicates(or)[q][
                s[0] as int
            ] && path_accepts(fl(or, 0), dp(or, 0), predicates(or), s, q, 1));
            assert(glushkov_accepts(or, s));
        }
        if glushkov_accepts(e2, s) {
            let q = choose|q: int|
                #[trigger] fp(e2, 0).contains(q) && 0 <= q < predicates(e2).len() && predicates(
                    e2,
                )[q][s[0] as int] && path_accepts(fl(e2, 0), dp(e2, 0), predicates(e2), s, q, 1);
            lemma_path_into_or_right(&e1, &e2, s, q, 1);
            assert(fp(e2, lc1).contains(q + lc1));
            assert(fp(or, 0).contains(q + lc1));
            assert(predicates(or)[q + lc1] == predicates(e2)[q]);
            assert(fp(or, 0).contains(q + lc1) && 0 <= q + lc1 < predicates(or).len()
                && predicates(or)[q + lc1][s[0] as int] && path_accepts(
                fl(or, 0),
                dp(or, 0),
                predicates(or),
                s,
                q + lc1,
                1,
            ));
            assert(glushkov_accepts(or, s));
        }
    }
}

/// The ids that augmentation assigns, read off the leaves in
/// left-to-right order, are exactly `c, c + 1, ...`: consecutive, with
/// no gaps and no repeats, one per leaf.
pub open spec fn pos_seq(e: Regex) -> Seq<u8>
    decreases e,
{
    match e {
        Regex::Letter(x) => seq![x],
        Regex::Or(a, b) => pos_seq(*a) + pos_seq(*b),
        Regex::Concat(a, b) => pos_seq(*a) + pos_seq(*b),
        Regex::Star(a) => pos_seq(*a),
        _ => Seq::empty(),
    }
}

/// Position ids assigned by augmentation are a permutation of the first
/// `leafcount` naturals shifted by the starting counter — in traversal
/// order they read `c, c + 1, ...` — and the predicate table has exactly
/// one row per position.
pub proof fn lemma_positions_consecutive(e: &Regex, c: nat)
    requires
        c + leafcount(*e) <= 256,
    ensures
        pos_seq(augmented(*e, c)) == Seq::new(leafcount(*e), |i: int| (c + i) as u8),
        predicates(*e).len() == leafcount(*e),
    decreases *e,
{
    lemma_predicates_len(e);
    match e {
        Regex::Or(a, b) => {
            let ghost lca = leafcount_of(&**a);
            lemma_positions_consecutive(&**a, c);
            lemma_positions_consecutive(&**b, c + lca);
            assert(pos_seq(augmented(*e, c)) == pos_seq(augmented(**a, c)) + pos_seq(
                augmented(**b, c + lca),
            ));
            assert(pos_seq(augmented(*e, c)) =~= Seq::new(
                leafcount(*e),
                |i: int| (c + i) as u8,
            ));
        },
        Regex::Concat(a, b) => {
            let ghost lca = leafcount_of(&**a);
            lemma_positions_consecutive(&**a, c);
            lemma_positions_consecutive(&**b, c + lca);
            assert(pos_seq(augmented(*e, c)) == pos_seq(augmented(**a, c)) + pos_seq(
                augmented(**b, c + lca),
            ));
            assert(pos_seq(augmented(*e, c)) =~= Seq::new(
                leafcount(*e),
                |i: int| (c + i) as u8,
            ));
        },
        Regex::Star(a) => {
            lemma_positions_consecutive(&**a, c);
            assert(pos_seq(augmented(*e, c)) =~= Seq::new(
                leafcount(*e),
                |i: int| (c + i) as u8,
            ));
        },
        Regex::Letter(_) => {
            assert(pos_seq(augmented(*e, c)) =~= Seq::new(
                leafcount(*e),
                |i: int| (c + i) as u8,
            ));
        },
        Regex::CharClass(_) => {
            assert(pos_seq(augmented(*e, c)) =~= Seq::new(
                leafcount(*e),
                |i: int| (c + i) as u8,
            ));
        },
        _ => {
            assert(pos_seq(augmented(*e, c)) =~= Seq::new(
                leafcount(*e),
                |i: int| (c + i) as u8,
            ));
        },
    }
}

} // verus!
