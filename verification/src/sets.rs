use vstd::prelude::*;
use crate::ast::{Regex, nullable, leafcount};
use crate::positions::{firstpos_t, lastpos_t, follow_t, cross_t, augmented};

verus! {

/// First-position set of the expression when augmentation numbers its
/// leaves starting at `c`: stated over the expression before augmentation,
/// so that the construction rules compose offset by offset.
pub open spec fn fp(e: Regex, c: int) -> Set<int>
    decreases e,
{
    match e {
        Regex::Or(a, b) => fp(*a, c).union(fp(*b, c + leafcount(*a))),
        Regex::Concat(a, b) => if nullable(*a) {
            fp(*a, c).union(fp(*b, c + leafcount(*a)))
        } else {
            fp(*a, c)
        },
        Regex::Star(a) => fp(*a, c),
        Regex::Letter(_) => Set::empty().insert(c),
        Regex::CharClass(_) => Set::empty().insert(c),
        _ => Set::empty(),
    }
}

/// Last-position set at offset `c`: the mirror image of `fp`.
pub open spec fn dp(e: Regex, c: int) -> Set<int>
    decreases e,
{
    match e {
        Regex::Or(a, b) => dp(*a, c).union(dp(*b, c + leafcount(*a))),
        Regex::Concat(a, b) => if nullable(*b) {
            dp(*a, c).union(dp(*b, c + leafcount(*a)))
        } else {
            dp(*b, c + leafcount(*a))
        },
        Regex::Star(a) => dp(*a, c),
        Regex::Letter(_) => Set::empty().insert(c),
        Regex::CharClass(_) => Set::empty().insert(c),
        _ => Set::empty(),
    }
}

/// All pairs with the first component in `d` and the second in `p`.
pub open spec fn cross(d: Set<int>, p: Set<int>) -> Set<(int, int)> {
    Set::new(|pr: (int, int)| d.contains(pr.0) && p.contains(pr.1))
}

/// Follow-pair set at offset `c`.
pub open spec fn fl(e: Regex, c: int) -> Set<(int, int)>
    decreases e,
{
    match e {
        Regex::Or(a, b) => fl(*a, c).union(fl(*b, c + leafcount(*a))),
        Regex::Concat(a, b) => fl(*a, c).union(fl(*b, c + leafcount(*a))).union(
            cross(dp(*a, c), fp(*b, c + leafcount(*a))),
        ),
        Regex::Star(a) => fl(*a, c).union(cross(dp(*a, c), fp(*a, c))),
        _ => Set::empty(),
    }
}

/// `leafcount` taken through a reference, for use in proof code.
pub open spec fn leafcount_of(e: &Regex) -> nat {
    leafcount(*e)
}

/// Every position in the three sets lies in the half-open interval of ids
/// that augmentation hands out to this subexpression.
pub proof fn lemma_sets_in_range(e: &Regex, c: int)
    ensures
        forall|p: int| #[trigger] fp(*e, c).contains(p) ==> c <= p < c + leafcount(*e),
        forall|p: int| #[trigger] dp(*e, c).contains(p) ==> c <= p < c + leafcount(*e),
        forall|pr: (int, int)| #[trigger]
            fl(*e, c).contains(pr) ==> c <= pr.0 < c + leafcount(*e) && c <= pr.1 < c
                + leafcount(*e),
    decreases *e,
{
    let ghost lc_e = leafcount_of(e) as int;
    match e {
        Regex::Or(a, b) => {
            let ghost lca = leafcount_of(&**a) as int;
            lemma_sets_in_range(&**a, c);
            lemma_sets_in_range(&**b, c + lca);
            assert forall|p: int| #[trigger] fp(*e, c).contains(p) implies c <= p < c + lc_e by {
                assert(fp(**a, c).contains(p) || fp(**b, c + lca).contains(p));
            }
            assert forall|p: int| #[trigger] dp(*e, c).contains(p) implies c <= p < c + lc_e by {
                assert(dp(**a, c).contains(p) || dp(**b, c + lca).contains(p));
            }
            assert forall|pr: (int, int)| #[trigger] fl(*e, c).contains(pr) implies c <= pr.0 < c
                + lc_e && c <= pr.1 < c + lc_e by {
                assert(fl(**a, c).contains(pr) || fl(**b, c + lca).contains(pr));
            }
        },
        Regex::Concat(a, b) => {
            let ghost lca = leafcount_of(&**a) as int;
            lemma_sets_in_range(&**a, c);
            lemma_sets_in_range(&**b, c + lca);
            assert forall|p: int| #[trigger] fp(*e, c).contains(p) implies c <= p < c + lc_e by {
                if nullable(**a) {
                    assert(fp(**a, c).contains(p) || fp(**b, c + lca).contains(p));
                } else {
                    assert(fp(**a, c).contains(p));
                }
            }
            assert forall|p: int| #[trigger] dp(*e, c).contains(p) implies c <= p < c + lc_e by {
                if nullable(**b) {
                    assert(dp(**a, c).contains(p) || dp(**b, c + lca).contains(p));
                } else {
                    assert(dp(**b, c + lca).contains(p));
                }
            }
            assert forall|pr: (int, int)| #[trigger] fl(*e, c).contains(pr) implies c <= pr.0 < c
                + lc_e && c <= pr.1 < c + lc_e by {
                if fl(**a, c).contains(pr) || fl(**b, c + lca).contains(pr) {
                } else {
                    assert(cross(dp(**a, c), fp(**b, c + lca)).contains(pr));
                    assert(dp(**a, c).contains(pr.0) && fp(**b, c + lca).contains(pr.1));
                }
            }
        },
        Regex::Star(a) => {
            assert(lc_e == leafcount_of(&**a) as int);
            lemma_sets_in_range(&**a, c);
            assert forall|p: int| #[trigger] fp(*e, c).contains(p) implies c <= p < c + lc_e by {
                assert(fp(**a, c).contains(p));
            }
            assert forall|p: int| #[trigger] dp(*e, c).contains(p) implies c <= p < c + lc_e by {
                assert(dp(**a, c).contains(p));
            }
            assert forall|pr: (int, int)| #[trigger] fl(*e, c).contains(pr) implies c <= pr.0 < c
                + lc_e && c <= pr.1 < c + lc_e by {
                if fl(**a, c).contains(pr) {
                } else {
                    assert(cross(dp(**a, c), fp(**a, c)).contains(pr));
                    assert(dp(**a, c).contains(pr.0) && fp(**a, c).contains(pr.1));
                }
            }
        },
        _ => {
            assert forall|p: int| #[trigger] fp(*e, c).contains(p) implies c <= p < c + lc_e by {}
            assert forall|p: int| #[trigger] dp(*e, c).contains(p) implies c <= p < c + lc_e by {}
            assert forall|pr: (int, int)| #[trigger] fl(*e, c).contains(pr) implies c <= pr.0 < c
                + lc_e && c <= pr.1 < c + lc_e by {}
        },
    }
}

/// Changing the starting offset translates every member of the three sets
/// by the same amount.
pub proof fn lemma_sets_shift(e: &Regex, c: int, d: int)
    ensures
        forall|p: int| #[trigger] fp(*e, c).contains(p) ==> fp(*e, d).contains(p - c + d),
        forall|p: int| #[trigger] dp(*e, c).contains(p) ==> dp(*e, d).contains(p - c + d),
        forall|pr: (int, int)| #[trigger]
            fl(*e, c).contains(pr) ==> fl(*e, d).contains((pr.0 - c + d, pr.1 - c + d)),
    decreases *e,
{
    match e {
        Regex::Or(a, b) => {
            let ghost lca = leafcount_of(&**a) as int;
            lemma_sets_shift(&**a, c, d);
            lemma_sets_shift(&**b, c + lca, d + lca);
            assert forall|p: int| #[trigger] fp(*e, c).contains(p) implies fp(*e, d).contains(
                p - c + d,
            ) by {
                if fp(**a, c).contains(p) {
                    assert(fp(**a, d).contains(p - c + d));
                } else {
                    assert(fp(**b, c + lca).contains(p));
                    assert(fp(**b, d + lca).contains(p - (c + lca) + (d + lca)));
                    assert(p - (c + lca) + (d + lca) == p - c + d);
                }
            }
            assert forall|p: int| #[trigger] dp(*e, c).contains(p) implies dp(*e, d).contains(
                p - c + d,
            ) by {
                if dp(**a, c).contains(p) {
                    assert(dp(**a, d).contains(p - c + d));
                } else {
                    assert(dp(**b, c + lca).contains(p));
                    assert(dp(**b, d + lca).contains(p - (c + lca) + (d + lca)));
                }
            }
            assert forall|pr: (int, int)| #[trigger] fl(*e, c).contains(pr) implies fl(
                *e,
                d,
            ).contains((pr.0 - c + d, pr.1 - c + d)) by {
                if fl(**a, c).contains(pr) {
                    assert(fl(**a, d).contains((pr.0 - c + d, pr.1 - c + d)));
                } else {
                    assert(fl(**b, c + lca).contains(pr));
                    assert(fl(**b, d + lca).contains(
                        (pr.0 - (c + lca) + (d + lca), pr.1 - (c + lca) + (d + lca)),
                    ));
                }
            }
        },
        Regex::Concat(a, b) => {
            let ghost lca = leafcount_of(&**a) as int;
            lemma_sets_shift(&**a, c, d);
            lemma_sets_shift(&**b, c + lca, d + lca);
            assert forall|p: int| #[trigger] fp(*e, c).contains(p) implies fp(*e, d).contains(
                p - c + d,
            ) by {
                if fp(**a, c).contains(p) {
                    assert(fp(**a, d).contains(p - c + d));
                } else {
                    assert(fp(**b, c + lca).contains(p));
                    assert(fp(**b, d + lca).contains(p - (c + lca) + (d + lca)));
                }
            }
            assert forall|p: int| #[trigger] dp(*e, c).contains(p) implies dp(*e, d).contains(
                p - c + d,
            ) by {
                if nullable(**b) && dp(**a, c).contains(p) {
                    assert(dp(**a, d).contains(p - c + d));
                } else {
                    assert(dp(**b, c + lca).contains(p));
                    assert(dp(**b, d + lca).contains(p - (c + lca) + (d + lca)));
                }
            }
            assert forall|pr: (int, int)| #[trigger] fl(*e, c).contains(pr) implies fl(
                *e,
                d,
            ).contains((pr.0 - c + d, pr.1 - c + d)) by {
                if fl(**a, c).contains(pr) {
                    assert(fl(**a, d).contains((pr.0 - c + d, pr.1 - c + d)));
                } else if fl(**b, c + lca).contains(pr) {
                    assert(fl(**b, d + lca).contains(
                        (pr.0 - (c + lca) + (d + lca), pr.1 - (c + lca) + (d + lca)),
                    ));
                } else {
                    assert(cross(dp(**a, c), fp(**b, c + lca)).contains(pr));
                    assert(dp(**a, d).contains(pr.0 - c + d));
                    assert(fp(**b, d + lca).contains(pr.1 - (c + lca) + (d + lca)));
                    assert(cross(dp(**a, d), fp(**b, d + lca)).contains(
                        (pr.0 - c + d, pr.1 - c + d),
                    ));
                }
            }
        },
        Regex::Star(a) => {
            lemma_sets_shift(&**a, c, d);
            assert forall|p: int| #[trigger] fp(*e, c).contains(p) implies fp(*e, d).contains(
                p - c + d,
            ) by {
                assert(fp(**a, c).contains(p));
            }
            assert forall|p: int| #[trigger] dp(*e, c).contains(p) implies dp(*e, d).contains(
                p - c + d,
            ) by {
                assert(dp(**a, c).contains(p));
            }
            assert forall|pr: (int, int)| #[trigger] fl(*e, c).contains(pr) implies fl(
                *e,
                d,
            ).contains((pr.0 - c + d, pr.1 - c + d)) by {
                if fl(**a, c).contains(pr) {
                    assert(fl(**a, d).contains((pr.0 - c + d, pr.1 - c + d)));
                } else {
                    assert(cross(dp(**a, c), fp(**a, c)).contains(pr));
                    assert(dp(**a, d).contains(pr.0 - c + d));
                    assert(fp(**a, d).contains(pr.1 - c + d));
                    assert(cross(dp(**a, d), fp(**a, d)).contains((pr.0 - c + d, pr.1 - c + d)));
                }
            }
        },
        _ => {
            assert forall|p: int| #[trigger] fp(*e, c).contains(p) implies fp(*e, d).contains(
                p - c + d,
            ) by {
                assert(p == c);
                assert(fp(*e, d).contains(d));
            }
            assert forall|p: int| #[trigger] dp(*e, c).contains(p) implies dp(*e, d).contains(
                p - c + d,
            ) by {
                assert(p == c);
                assert(dp(*e, d).contains(d));
            }
            assert forall|pr: (int, int)| #[trigger] fl(*e, c).contains(pr) implies fl(
                *e,
                d,
            ).contains((pr.0 - c + d, pr.1 - c + d)) by {}
        },
    }
}

/// The sets computed on the augmented tree agree, member for member, with
/// the offset-indexed sets of the expression it was built from; the
/// augmented tree also keeps its nullability.
pub proof fn lemma_aug_sets(e: &Regex, c: nat)
    requires
        c + leafcount(*e) <= 256,
    ensures
        nullable(augmented(*e, c)) == nullable(*e),
        forall|x: u8| #[trigger]
            firstpos_t(augmented(*e, c)).contains(x) <==> fp(*e, c as int).contains(x as int),
        forall|x: u8| #[trigger]
            lastpos_t(augmented(*e, c)).contains(x) <==> dp(*e, c as int).contains(x as int),
        forall|pr: (u8, u8)| #[trigger]
            follow_t(augmented(*e, c)).contains(pr) <==> fl(*e, c as int).contains(
                (pr.0 as int, pr.1 as int),
            ),
        forall|p: int| #[trigger]
            fp(*e, c as int).contains(p) ==> firstpos_t(augmented(*e, c)).contains(p as u8),
        forall|p: int| #[trigger]
            dp(*e, c as int).contains(p) ==> lastpos_t(augmented(*e, c)).contains(p as u8),
        forall|pr: (int, int)| #[trigger]
            fl(*e, c as int).contains(pr) ==> follow_t(augmented(*e, c)).contains(
                (pr.0 as u8, pr.1 as u8),
            ),
    decreases *e,
{
    let ghost ci = c as int;
    lemma_sets_in_range(e, ci);
    match e {
        Regex::Or(a, b) => {
            let ghost lca = leafcount_of(&**a);
            lemma_aug_sets(&**a, c);
            lemma_aug_sets(&**b, c + lca);
            lemma_sets_in_range(&**a, ci);
            lemma_sets_in_range(&**b, ci + lca);
            assert(firstpos_t(augmented(*e, c)) == firstpos_t(augmented(**a, c)).union(
                firstpos_t(augmented(**b, c + lca)),
            ));
            assert(lastpos_t(augmented(*e, c)) == lastpos_t(augmented(**a, c)).union(
                lastpos_t(augmented(**b, c + lca)),
            ));
            assert(follow_t(augmented(*e, c)) == follow_t(augmented(**a, c)).union(
                follow_t(augmented(**b, c + lca)),
            ));
            assert(fp(*e, ci) == fp(**a, ci).union(fp(**b, ci + lca)));
            assert(dp(*e, ci) == dp(**a, ci).union(dp(**b, ci + lca)));
            assert(fl(*e, ci) == fl(**a, ci).union(fl(**b, ci + lca)));
        },
        Regex::Concat(a, b) => {
            let ghost lca = leafcount_of(&**a);
            lemma_aug_sets(&**a, c);
            lemma_aug_sets(&**b, c + lca);
            lemma_sets_in_range(&**a, ci);
            lemma_sets_in_range(&**b, ci + lca);
            assert(nullable(augmented(**a, c)) == nullable(**a));
            assert(nullable(augmented(**b, c + lca)) == nullable(**b));
            assert(firstpos_t(augmented(*e, c)) == (if nullable(**a) {
                firstpos_t(augmented(**a, c)).union(firstpos_t(augmented(**b, c + lca)))
            } else {
                firstpos_t(augmented(**a, c))
            }));
            assert(fp(*e, ci) == (if nullable(**a) {
                fp(**a, ci).union(fp(**b, ci + lca))
            } else {
                fp(**a, ci)
            }));
            assert(lastpos_t(augmented(*e, c)) == (if nullable(**b) {
                lastpos_t(augmented(**a, c)).union(lastpos_t(augmented(**b, c + lca)))
            } else {
                lastpos_t(augmented(**b, c + lca))
            }));
            assert(dp(*e, ci) == (if nullable(**b) {
                dp(**a, ci).union(dp(**b, ci + lca))
            } else {
                dp(**b, ci + lca)
            }));
            assert(follow_t(augmented(*e, c)) == follow_t(augmented(**a, c)).union(
                follow_t(augmented(**b, c + lca)),
            ).union(cross_t(lastpos_t(augmented(**a, c)), firstpos_t(augmented(**b, c + lca)))));
            assert(fl(*e, ci) == fl(**a, ci).union(fl(**b, ci + lca)).union(
                cross(dp(**a, ci), fp(**b, ci + lca)),
            ));
            assert forall|pr: (u8, u8)| #[trigger]
                follow_t(augmented(*e, c)).contains(pr) implies fl(*e, ci).contains(
                (pr.0 as int, pr.1 as int),
            ) by {
                if follow_t(augmented(**a, c)).contains(pr) || follow_t(
                    augmented(**b, c + lca),
                ).contains(pr) {
                } else {
                    assert(lastpos_t(augmented(**a, c)).contains(pr.0));
                    assert(firstpos_t(augmented(**b, c + lca)).contains(pr.1));
                    assert(dp(**a, ci).contains(pr.0 as int));
                    assert(fp(**b, ci + lca).contains(pr.1 as int));
                    assert(cross(dp(**a, ci), fp(**b, ci + lca)).contains(
                        (pr.0 as int, pr.1 as int),
                    ));
                }
            }
            assert forall|pr: (int, int)| #[trigger] fl(*e, ci).contains(pr) implies follow_t(
                augmented(*e, c),
            ).contains((pr.0 as u8, pr.1 as u8)) by {
                if fl(**a, ci).contains(pr) || fl(**b, ci + lca).contains(pr) {
                } else {
                    assert(cross(dp(**a, ci), fp(**b, ci + lca)).contains(pr));
                    assert(dp(**a, ci).contains(pr.0) && fp(**b, ci + lca).contains(pr.1));
                    assert(lastpos_t(augmented(**a, c)).contains(pr.0 as u8));
                    assert(firstpos_t(augmented(**b, c + lca)).contains(pr.1 as u8));
                    assert(cross_t(
                        lastpos_t(augmented(**a, c)),
                        firstpos_t(augmented(**b, c + lca)),
                    ).contains((pr.0 as u8, pr.1 as u8)));
                }
            }
        },
        Regex::Star(a) => {
            lemma_aug_sets(&**a, c);
            lemma_sets_in_range(&**a, ci);
            assert(firstpos_t(augmented(*e, c)) == firstpos_t(augmented(**a, c)));
            assert(lastpos_t(augmented(*e, c)) == lastpos_t(augmented(**a, c)));
            assert(follow_t(augmented(*e, c)) == follow_t(augmented(**a, c)).union(
                cross_t(lastpos_t(augmented(**a, c)), firstpos_t(augmented(**a, c))),
            ));
            assert(fl(*e, ci) == fl(**a, ci).union(cross(dp(**a, ci), fp(**a, ci))));
            assert forall|pr: (u8, u8)| #[trigger]
                follow_t(augmented(*e, c)).contains(pr) implies fl(*e, ci).contains(
                (pr.0 as int, pr.1 as int),
            ) by {
                if follow_t(augmented(**a, c)).contains(pr) {
                } else {
                    assert(lastpos_t(augmented(**a, c)).contains(pr.0));
                    assert(firstpos_t(augmented(**a, c)).contains(pr.1));
                    assert(cross(dp(**a, ci), fp(**a, ci)).contains((pr.0 as int, pr.1 as int)));
                }
            }
            assert forall|pr: (int, int)| #[trigger] fl(*e, ci).contains(pr) implies follow_t(
                augmented(*e, c),
            ).contains((pr.0 as u8, pr.1 as u8)) by {
                if fl(**a, ci).contains(pr) {
                } else {
                    assert(cross(dp(**a, ci), fp(**a, ci)).contains(pr));
                    assert(dp(**a, ci).contains(pr.0) && fp(**a, ci).contains(pr.1));
                    assert(lastpos_t(augmented(**a, c)).contains(pr.0 as u8));
                    assert(firstpos_t(augmented(**a, c)).contains(pr.1 as u8));
                    assert(cross_t(
                        lastpos_t(augmented(**a, c)),
                        firstpos_t(augmented(**a, c)),
                    ).contains((pr.0 as u8, pr.1 as u8)));
                }
            }
        },
        _ => {},
    }
}

} // verus!
