use vstd::prelude::*;
use std::rc::Rc;
use crate::ast::{Regex, or_of, concat_of, star_of, leafcount, classes_wf};

verus! {

/// The concrete parse tree that the surface grammar produces.
///
/// The tree builder consumes exactly this node vocabulary; the surface
/// parser itself (text to `ParseTree`) is an outside collaborator and
/// lives with the program around the library.
pub enum ParseTree {
    Regex(Box<ParseTree>),
    Or(Box<ParseTree>, Box<ParseTree>),
    Concat(Box<ParseTree>, Box<ParseTree>),
    Star(Box<ParseTree>),
    Plus(Box<ParseTree>),
    QMark(Box<ParseTree>),
    /// `e{m,n}`: at least m and at most n copies.
    Quantifier(Box<ParseTree>, u32, u32),
    /// `e{m,}`: at least m copies.
    LQuantifier(Box<ParseTree>, u32),
    /// `e{,n}`: at most n copies.
    UQuantifier(Box<ParseTree>, u32),
    /// `e{n}`: exactly n copies.
    FQuantifier(Box<ParseTree>, u32),
    Paren(Box<ParseTree>),
    CharClass(Vec<ClassItem>),
    NegCharClass(Vec<ClassItem>),
    Letter(u8),
}

/// One entry of a character class: a single byte or an inclusive range.
#[derive(Clone, Copy)]
pub enum ClassItem {
    Single(u8),
    Range(u8, u8),
}

/// An error raised while a parse tree is turned into an expression.
#[derive(Clone, Copy, Debug, PartialEq, Eq, Structural)]
pub enum RegexError {
    /// A `{m,n}` quantifier with m greater than n.
    QuantifierBounds,
    /// The desugared expression has more symbol positions than the
    /// automaton's `u8` state numbering can hold.
    TooManyPositions,
}

/// The desugaring of `e{a,b}`: `a` mandatory copies of `e` concatenated,
/// followed by `b - a` optional copies, each wrapped `Or(e, Eps)`.
pub open spec fn quantified(e: Regex, a: nat, b: nat) -> Regex
    decreases a, b,
{
    if a > 0 {
        concat_of(e, quantified(e, (a - 1) as nat, if b > 0 { (b - 1) as nat } else { 0 }))
    } else if b > 1 {
        concat_of(or_of(e, Regex::Eps), quantified(e, 0, (b - 1) as nat))
    } else if b == 1 {
        or_of(e, Regex::Eps)
    } else {
        Regex::Eps
    }
}

/// The desugaring of `e{a,}`: `a` mandatory copies terminated by `Star(e)`.
pub open spec fn lquantified(e: Regex, a: nat) -> Regex
    decreases a,
{
    if a > 0 {
        concat_of(e, lquantified(e, (a - 1) as nat))
    } else {
        star_of(e)
    }
}

/// Whether one class entry covers the byte `b`.
pub open spec fn item_matches(it: ClassItem, b: u8) -> bool {
    match it {
        ClassItem::Single(x) => b == x,
        ClassItem::Range(lo, hi) => lo <= b && b <= hi,
    }
}

/// Class membership of byte `b` after every entry has toggled (symmetric
/// difference, not union) the bytes it covers; a negated class starts from
/// all 256 bytes included.  Listing a byte twice therefore removes it.
pub open spec fn class_member(items: Seq<ClassItem>, negated: bool, b: u8) -> bool
    decreases items.len(),
{
    if items.len() == 0 {
        negated
    } else {
        class_member(items.drop_last(), negated, b) != item_matches(items.last(), b)
    }
}

/// Whether every bounded quantifier in the tree has its lower bound at most
/// its upper bound.
pub open spec fn quant_ok(t: ParseTree) -> bool
    decreases t,
{
    match t {
        ParseTree::Regex(inner) => quant_ok(*inner),
        ParseTree::Or(l, r) => quant_ok(*l) && quant_ok(*r),
        ParseTree::Concat(l, r) => quant_ok(*l) && quant_ok(*r),
        ParseTree::Star(inner) => quant_ok(*inner),
        ParseTree::Plus(inner) => quant_ok(*inner),
        ParseTree::QMark(inner) => quant_ok(*inner),
        ParseTree::Quantifier(inner, m, n) => m <= n && quant_ok(*inner),
        ParseTree::LQuantifier(inner, _) => quant_ok(*inner),
        ParseTree::UQuantifier(inner, _) => quant_ok(*inner),
        ParseTree::FQuantifier(inner, _) => quant_ok(*inner),
        ParseTree::Paren(inner) => quant_ok(*inner),
        ParseTree::CharClass(_) => true,
        ParseTree::NegCharClass(_) => true,
        ParseTree::Letter(_) => true,
    }
}

/// Relates a parse tree to the expression the tree builder makes of it:
/// structural nodes map directly, quantifiers are desugared, and a class
/// leaf becomes the 256-entry membership table built by toggling.
pub open spec fn builds(t: ParseTree, e: Regex) -> bool
    decreases t, 0nat, 0nat, 0nat,
{
    match t {
        ParseTree::Regex(inner) => builds(*inner, e),
        ParseTree::Or(l, r) => e matches Regex::Or(a, b) && builds(*l, *a) && builds(*r, *b),
        ParseTree::Concat(l, r) => e matches Regex::Concat(a, b) && builds(*l, *a) && builds(
            *r,
            *b,
        ),
        ParseTree::Star(inner) => e matches Regex::Star(a) && builds(*inner, *a),
        ParseTree::Plus(inner) => e matches Regex::Concat(a, b) && (*b matches Regex::Star(c)
            && builds(*inner, *a) && *c == *a),
        ParseTree::QMark(inner) => e matches Regex::Or(a, b) && *b == Regex::Eps && builds(
            *inner,
            *a,
        ),
        ParseTree::Quantifier(inner, m, n) => builds_quantified(*inner, m, n, e),
        ParseTree::LQuantifier(inner, m) => builds_lquantified(*inner, m, e),
        ParseTree::UQuantifier(inner, n) => builds_quantified(*inner, 0, n, e),
        ParseTree::FQuantifier(inner, n) => builds_quantified(*inner, n, n, e),
        ParseTree::Paren(inner) => builds(*inner, e),
        ParseTree::CharClass(items) => e matches Regex::CharClass(v) && v@.len() == 256
            && (forall|b: int| 0 <= b < 256 ==> v@[b] == class_member(items@, false, b as u8)),
        ParseTree::NegCharClass(items) => e matches Regex::CharClass(v) && v@.len() == 256
            && (forall|b: int| 0 <= b < 256 ==> v@[b] == class_member(items@, true, b as u8)),
        ParseTree::Letter(x) => e == Regex::Letter(x),
    }
}

/// The expression is the `{m,n}` desugaring of expressions built from the
/// inner tree: m mandatory copies, then optional ones, as `quantified`
/// shapes them.
pub open spec fn builds_quantified(inner: ParseTree, m: u32, n: u32, e: Regex) -> bool
    decreases inner, 1nat, m, n,
{
    if m > 0 {
        e matches Regex::Concat(a, rest) && builds(inner, *a) && builds_quantified(
            inner,
            (m - 1) as u32,
            if n > 0 {
                (n - 1) as u32
            } else {
                0u32
            },
            *rest,
        )
    } else if n > 1 {
        e matches Regex::Concat(h, rest) && (*h matches Regex::Or(a, eps) && *eps == Regex::Eps
            && builds(inner, *a)) && builds_quantified(inner, 0u32, (n - 1) as u32, *rest)
    } else if n == 1 {
        e matches Regex::Or(a, eps) && *eps == Regex::Eps && builds(inner, *a)
    } else {
        e == Regex::Eps
    }
}

/// The expression is the `{m,}` desugaring of expressions built from the
/// inner tree: m mandatory copies terminated by a starred one.
pub open spec fn builds_lquantified(inner: ParseTree, m: u32, e: Regex) -> bool
    decreases inner, 1nat, m, 0nat,
{
    if m > 0 {
        e matches Regex::Concat(a, rest) && builds(inner, *a) && builds_lquantified(
            inner,
            (m - 1) as u32,
            *rest,
        )
    } else {
        e matches Regex::Star(c) && builds(inner, *c)
    }
}

/// What `getQuantified` returns is the `{m,n}` desugaring of what it was
/// handed.
pub proof fn lemma_quantified_builds(inner: &ParseTree, a: &Regex, m: u32, n: u32)
    requires
        builds(*inner, *a),
        m <= n,
    ensures
        builds_quantified(*inner, m, n, quantified(*a, m as nat, n as nat)),
    decreases m, n,
{
    if m > 0 {
        lemma_quantified_builds(inner, a, (m - 1) as u32, (n - 1) as u32);
    } else if n > 1 {
        lemma_quantified_builds(inner, a, 0, (n - 1) as u32);
    }
}

/// What `getLQuantified` returns is the `{m,}` desugaring of what it was
/// handed.
pub proof fn lemma_lquantified_builds(inner: &ParseTree, a: &Regex, m: u32)
    requires
        builds(*inner, *a),
    ensures
        builds_lquantified(*inner, m, lquantified(*a, m as nat)),
    decreases m,
{
    if m > 0 {
        lemma_lquantified_builds(inner, a, (m - 1) as u32);
    }
}

/// Desugars `e{a,b}`, sharing the same underlying node once per copy and
/// driving both counters to zero.
#[allow(non_snake_case)]
pub fn getQuantified(regexp: &Rc<Regex>, a: &mut u32, b: &mut u32) -> (r: Rc<Regex>)
    requires
        *old(a) <= *old(b),
    ensures
        *r == quantified(**regexp, *old(a) as nat, *old(b) as nat),
        *final(a) == 0,
        *final(b) == 0,
    decreases *a,
        *b,
{
    if *a > 0 {
        *a = *a - 1;
        *b = *b - 1;
        let tmpregex = regexp.clone();
        Rc::new(Regex::Concat(tmpregex, getQuantified(regexp, a, b)))
    } else if *b > 1 {
        *b = *b - 1;
        let tmpregex = regexp.clone();
        Rc::new(
            Regex::Concat(
                Rc::new(Regex::Or(tmpregex, Rc::new(Regex::Eps))),
                getQuantified(regexp, a, b),
            ),
        )
    } else if *b == 1 {
        *b = *b - 1;
        let tmpregex = regexp.clone();
        Rc::new(Regex::Or(tmpregex, Rc::new(Regex::Eps)))
    } else {
        Rc::new(Regex::Eps)
    }
}

/// Desugars `e{a,}`, sharing the same underlying node once per copy and
/// driving the counter to zero.
#[allow(non_snake_case)]
pub fn getLQuantified(regexp: &Rc<Regex>, a: &mut u32) -> (r: Rc<Regex>)
    ensures
        *r == lquantified(**regexp, *old(a) as nat),
        *final(a) == 0,
    decreases *a,
{
    if *a > 0 {
        *a = *a - 1;
        let tmpregex = regexp.clone();
        Rc::new(Regex::Concat(tmpregex, getLQuantified(regexp, a)))
    } else {
        let tmpregex = regexp.clone();
        Rc::new(Regex::Star(tmpregex))
    }
}

/// Builds the 256-entry membership table of a character class by toggling
/// the bytes each entry covers, starting from all-out (or all-in for a
/// negated class).
pub fn build_class(items: &Vec<ClassItem>, negated: bool) -> (v: Vec<bool>)
    ensures
        v@.len() == 256,
        forall|b: int| 0 <= b < 256 ==> v@[b] == class_member(items@, negated, b as u8),
{
    let mut v: Vec<bool> = Vec::new();
    let mut i: usize = 0;
    while i < 256
        invariant
            i <= 256,
            v@.len() == i,
            forall|b: int| 0 <= b < i ==> v@[b] == negated,
        decreases 256 - i,
    {
        v.push(negated);
        i = i + 1;
    }
    assert(forall|b: int| 0 <= b < 256 ==> v@[b] == class_member(items@.take(0), negated, b as u8));
    let mut k: usize = 0;
    while k < items.len()
        invariant
            k <= items@.len(),
            v@.len() == 256,
            forall|b: int| 0 <= b < 256 ==> v@[b] == class_member(
                items@.take(k as int),
                negated,
                b as u8,
            ),
        decreases items@.len() - k,
    {
        let ghost prefix = items@.take(k as int);
        match items[k] {
            ClassItem::Single(x) => {
                let cur = v[x as usize];
                v.set(x as usize, !cur);
            },
            ClassItem::Range(lo, hi) => {
                let mut c: usize = lo as usize;
                while c <= hi as usize
                    invariant
                        lo as usize <= c <= 256,
                        c <= hi as usize + 1 || c == lo as usize,
                        v@.len() == 256,
                        forall|b: int| 0 <= b < 256 ==> v@[b] == (class_member(
                            prefix,
                            negated,
                            b as u8,
                        ) != (lo <= b && b < c)),
                    decreases hi as int + 1 - c,
                {
                    let cur = v[c];
                    v.set(c, !cur);
                    c = c + 1;
                }
            },
        }
        proof {
            let next = items@.take(k as int + 1);
            assert(next.drop_last() =~= prefix);
            assert(next.last() == items@[k as int]);
            assert forall|b: int| 0 <= b < 256 implies v@[b] == class_member(
                next,
                negated,
                b as u8,
            ) by {
                assert(class_member(next, negated, b as u8) == (class_member(
                    prefix,
                    negated,
                    b as u8,
                ) != item_matches(items@[k as int], b as u8)));
            }
        }
        k = k + 1;
    }
    proof {
        assert(items@.take(items@.len() as int) =~= items@);
    }
    v
}

/// The number of positions the expression built from the tree will have:
/// desugaring an `{m,n}` quantifier leaves n occurrences of the inner
/// expression, `{m,}` leaves m plus the starred copy.
pub open spec fn desugared_leafcount(t: ParseTree) -> nat
    decreases t,
{
    match t {
        ParseTree::Regex(inner) => desugared_leafcount(*inner),
        ParseTree::Or(l, r) => desugared_leafcount(*l) + desugared_leafcount(*r),
        ParseTree::Concat(l, r) => desugared_leafcount(*l) + desugared_leafcount(*r),
        ParseTree::Star(inner) => desugared_leafcount(*inner),
        ParseTree::Plus(inner) => 2 * desugared_leafcount(*inner),
        ParseTree::QMark(inner) => desugared_leafcount(*inner),
        ParseTree::Quantifier(inner, _, n) => n as nat * desugared_leafcount(*inner),
        ParseTree::LQuantifier(inner, m) => (m as nat + 1) * desugared_leafcount(*inner),
        ParseTree::UQuantifier(inner, n) => n as nat * desugared_leafcount(*inner),
        ParseTree::FQuantifier(inner, n) => n as nat * desugared_leafcount(*inner),
        ParseTree::Paren(inner) => desugared_leafcount(*inner),
        ParseTree::CharClass(_) => 1,
        ParseTree::NegCharClass(_) => 1,
        ParseTree::Letter(_) => 1,
    }
}

pub proof fn lemma_quantified_leafcount(e: &Regex, a: nat, b: nat)
    requires
        a <= b,
    ensures
        leafcount(quantified(*e, a, b)) == b * leafcount(*e),
    decreases a, b,
{
    reveal_with_fuel(leafcount, 3);
    if a > 0 {
        lemma_quantified_leafcount(e, (a - 1) as nat, (b - 1) as nat);
        let b1 = (b - 1) as nat;
        assert(leafcount(*e) + b1 * leafcount(*e) == (b1 + 1) * leafcount(*e))
            by (nonlinear_arith);
    } else if b > 1 {
        lemma_quantified_leafcount(e, 0, (b - 1) as nat);
        let b1 = (b - 1) as nat;
        assert(leafcount(*e) + b1 * leafcount(*e) == (b1 + 1) * leafcount(*e))
            by (nonlinear_arith);
    } else if b == 1 {
        assert(1 * leafcount(*e) == leafcount(*e)) by (nonlinear_arith);
    } else {
        assert(0 * leafcount(*e) == 0) by (nonlinear_arith);
    }
}

pub proof fn lemma_lquantified_leafcount(e: &Regex, a: nat)
    ensures
        leafcount(lquantified(*e, a)) == (a + 1) * leafcount(*e),
    decreases a,
{
    reveal_with_fuel(leafcount, 3);
    if a > 0 {
        lemma_lquantified_leafcount(e, (a - 1) as nat);
        assert(leafcount(*e) + a * leafcount(*e) == (a + 1) * leafcount(*e))
            by (nonlinear_arith);
    } else {
        assert(1 * leafcount(*e) == leafcount(*e)) by (nonlinear_arith);
    }
}

pub proof fn lemma_builds_quantified_leafcount(inner: &ParseTree, m: u32, n: u32, e: &Regex)
    requires
        quant_ok(*inner),
        m <= n,
        builds_quantified(*inner, m, n, *e),
    ensures
        leafcount(*e) == n as nat * desugared_leafcount(*inner),
    decreases *inner, 1nat, m as nat, n as nat,
{
    let d = desugared_leafcount(*inner);
    if m > 0 {
        if let Regex::Concat(a, rest) = e {
            lemma_builds_leafcount(inner, &**a);
            lemma_builds_quantified_leafcount(inner, (m - 1) as u32, (n - 1) as u32, &**rest);
            assert(d + (n - 1) as nat * d == n as nat * d) by (nonlinear_arith)
                requires n >= 1;
        }
    } else if n > 1 {
        if let Regex::Concat(h, rest) = e {
            reveal_with_fuel(leafcount, 3);
            if let Regex::Or(a, eps) = &**h {
                lemma_builds_leafcount(inner, &**a);
            }
            lemma_builds_quantified_leafcount(inner, 0, (n - 1) as u32, &**rest);
            assert(d + (n - 1) as nat * d == n as nat * d) by (nonlinear_arith)
                requires n >= 1;
        }
    } else if n == 1 {
        reveal_with_fuel(leafcount, 2);
        if let Regex::Or(a, eps) = e {
            lemma_builds_leafcount(inner, &**a);
        }
        assert(1 * d == d) by (nonlinear_arith);
    } else {
        assert(0 * d == 0) by (nonlinear_arith);
    }
}

pub proof fn lemma_builds_lquantified_leafcount(inner: &ParseTree, m: u32, e: &Regex)
    requires
        quant_ok(*inner),
        builds_lquantified(*inner, m, *e),
    ensures
        leafcount(*e) == (m as nat + 1) * desugared_leafcount(*inner),
    decreases *inner, 1nat, m as nat, 0nat,
{
    let d = desugared_leafcount(*inner);
    if m > 0 {
        if let Regex::Concat(a, rest) = e {
            lemma_builds_leafcount(inner, &**a);
            lemma_builds_lquantified_leafcount(inner, (m - 1) as u32, &**rest);
            assert(d + (m as nat - 1 + 1) * d == (m as nat + 1) * d) by (nonlinear_arith)
                requires m >= 1;
        }
    } else {
        if let Regex::Star(c) = e {
            lemma_builds_leafcount(inner, &**c);
        }
        assert((0 + 1) * d == d) by (nonlinear_arith);
    }
}

/// On a tree with well-formed quantifier bounds, every expression the tree
/// builds has exactly `desugared_leafcount` positions.
pub proof fn lemma_builds_leafcount(t: &ParseTree, e: &Regex)
    requires
        quant_ok(*t),
        builds(*t, *e),
    ensures
        leafcount(*e) == desugared_leafcount(*t),
    decreases *t, 0nat, 0nat, 0nat,
{
    match t {
        ParseTree::Regex(inner) => lemma_builds_leafcount(&**inner, e),
        ParseTree::Or(l, r) => {
            if let Regex::Or(a, b) = e {
                lemma_builds_leafcount(&**l, &**a);
                lemma_builds_leafcount(&**r, &**b);
            }
        },
        ParseTree::Concat(l, r) => {
            if let Regex::Concat(a, b) = e {
                lemma_builds_leafcount(&**l, &**a);
                lemma_builds_leafcount(&**r, &**b);
            }
        },
        ParseTree::Star(inner) => {
            if let Regex::Star(a) = e {
                lemma_builds_leafcount(&**inner, &**a);
            }
        },
        ParseTree::Plus(inner) => {
            reveal_with_fuel(leafcount, 3);
            if let Regex::Concat(a, b) = e {
                lemma_builds_leafcount(&**inner, &**a);
            }
        },
        ParseTree::QMark(inner) => {
            reveal_with_fuel(leafcount, 3);
            if let Regex::Or(a, b) = e {
                lemma_builds_leafcount(&**inner, &**a);
            }
        },
        ParseTree::Quantifier(inner, m, n) => {
            lemma_builds_quantified_leafcount(&**inner, *m, *n, e);
        },
        ParseTree::LQuantifier(inner, m) => {
            lemma_builds_lquantified_leafcount(&**inner, *m, e);
        },
        ParseTree::UQuantifier(inner, n) => {
            lemma_builds_quantified_leafcount(&**inner, 0, *n, e);
        },
        ParseTree::FQuantifier(inner, n) => {
            lemma_builds_quantified_leafcount(&**inner, *n, *n, e);
        },
        ParseTree::Paren(inner) => lemma_builds_leafcount(&**inner, e),
        ParseTree::CharClass(_) => {},
        ParseTree::NegCharClass(_) => {},
        ParseTree::Letter(_) => {},
    }
}

/// Every expression the tree builder makes has full 256-entry class
/// tables.
pub proof fn lemma_builds_classes_wf(t: &ParseTree, e: &Regex)
    requires
        builds(*t, *e),
    ensures
        classes_wf(*e),
    decreases *t, 0nat, 0nat, 0nat,
{
    assert(classes_wf(Regex::Eps));
    match t {
        ParseTree::Regex(inner) => {
            lemma_builds_classes_wf(&**inner, e);
            assert(classes_wf(*e));
        },
        ParseTree::Or(l, r) => {
            if let Regex::Or(a, b) = e {
                lemma_builds_classes_wf(&**l, &**a);
                lemma_builds_classes_wf(&**r, &**b);
            }
        },
        ParseTree::Concat(l, r) => {
            if let Regex::Concat(a, b) = e {
                lemma_builds_classes_wf(&**l, &**a);
                lemma_builds_classes_wf(&**r, &**b);
            }
            assert(classes_wf(*e));
        },
        ParseTree::Star(inner) => {
            if let Regex::Star(a) = e {
                lemma_builds_classes_wf(&**inner, &**a);
            }
            assert(classes_wf(*e));
        },
        ParseTree::Plus(inner) => {
            if let Regex::Concat(a, b) = e {
                lemma_builds_classes_wf(&**inner, &**a);
                if let Regex::Star(c) = &**b {
                    assert(classes_wf(**c));
                    assert(classes_wf(**b));
                }
            }
            assert(classes_wf(*e));
        },
        ParseTree::QMark(inner) => {
            if let Regex::Or(a, b) = e {
                lemma_builds_classes_wf(&**inner, &**a);
            }
            assert(classes_wf(*e));
        },
        ParseTree::Quantifier(inner, m, n) => {
            lemma_bq_classes_wf(&**inner, *m, *n, e);
            assert(classes_wf(*e));
        },
        ParseTree::LQuantifier(inner, m) => {
            lemma_blq_classes_wf(&**inner, *m, e);
            assert(classes_wf(*e));
        },
        ParseTree::UQuantifier(inner, n) => {
            lemma_bq_classes_wf(&**inner, 0, *n, e);
            assert(classes_wf(*e));
        },
        ParseTree::FQuantifier(inner, n) => {
            lemma_bq_classes_wf(&**inner, *n, *n, e);
            assert(classes_wf(*e));
        },
        ParseTree::Paren(inner) => {
            lemma_builds_classes_wf(&**inner, e);
            assert(classes_wf(*e));
        },
        ParseTree::CharClass(_) => {
            assert(classes_wf(*e));
        },
        ParseTree::NegCharClass(_) => {
            assert(classes_wf(*e));
        },
        ParseTree::Letter(_) => {
            assert(classes_wf(*e));
        },
    }
}

proof fn lemma_bq_classes_wf(inner: &ParseTree, m: u32, n: u32, e: &Regex)
    requires
        builds_quantified(*inner, m, n, *e),
    ensures
        classes_wf(*e),
    decreases *inner, 1nat, m as nat, n as nat,
{
    assert(classes_wf(Regex::Eps));
    if m > 0 {
        if let Regex::Concat(a, rest) = e {
            lemma_builds_classes_wf(inner, &**a);
            lemma_bq_classes_wf(inner, (m - 1) as u32, if n > 0 { (n - 1) as u32 } else { 0u32 },
                &**rest);
        }
    } else if n > 1 {
        if let Regex::Concat(h, rest) = e {
            if let Regex::Or(a, eps) = &**h {
                lemma_builds_classes_wf(inner, &**a);
                assert(classes_wf(**eps));
                assert(classes_wf(**h));
            }
            lemma_bq_classes_wf(inner, 0, (n - 1) as u32, &**rest);
        }
    } else if n == 1 {
        if let Regex::Or(a, eps) = e {
            lemma_builds_classes_wf(inner, &**a);
            assert(classes_wf(**eps));
        }
    }
}

proof fn lemma_blq_classes_wf(inner: &ParseTree, m: u32, e: &Regex)
    requires
        builds_lquantified(*inner, m, *e),
    ensures
        classes_wf(*e),
    decreases *inner, 1nat, m as nat, 0nat,
{
    assert(classes_wf(Regex::Eps));
    if m > 0 {
        if let Regex::Concat(a, rest) = e {
            lemma_builds_classes_wf(inner, &**a);
            lemma_blq_classes_wf(inner, (m - 1) as u32, &**rest);
        }
    } else {
        if let Regex::Star(c) = e {
            lemma_builds_classes_wf(inner, &**c);
        }
    }
}

/// Turns a concrete parse tree into an expression: structural nodes map
/// directly, `e+` becomes `Concat(e, Star(e))`, `e?` becomes `Or(e, Eps)`,
/// bounded quantifiers are expanded, and class leaves become membership
/// tables.  A quantifier with its lower bound above its upper bound is a
/// hard error.
#[allow(non_snake_case)]
#[verifier::rlimit(100)]
#[verifier::spinoff_prover]
pub fn parse_to_AST(token: &ParseTree) -> (r: Result<Rc<Regex>, RegexError>)
    ensures
        r is Ok <==> quant_ok(*token),
        r matches Ok(e) ==> builds(*token, *e),
        r matches Err(err) ==> err == RegexError::QuantifierBounds,
    decreases *token,
{
    match token {
        ParseTree::Regex(inner) => parse_to_AST(&**inner),
        ParseTree::Or(l, r) => {
            let r1 = match parse_to_AST(&**l) {
                Ok(x) => x,
                Err(err) => {
                    return Err(err);
                },
            };
            let r2 = match parse_to_AST(&**r) {
                Ok(x) => x,
                Err(err) => {
                    return Err(err);
                },
            };
            Ok(Rc::new(Regex::Or(r1, r2)))
        },
        ParseTree::Concat(l, r) => {
            let r1 = match parse_to_AST(&**l) {
                Ok(x) => x,
                Err(err) => {
                    return Err(err);
                },
            };
            let r2 = match parse_to_AST(&**r) {
                Ok(x) => x,
                Err(err) => {
                    return Err(err);
                },
            };
            Ok(Rc::new(Regex::Concat(r1, r2)))
        },
        ParseTree::Star(inner) => {
            let r1 = match parse_to_AST(&**inner) {
                Ok(x) => x,
                Err(err) => {
                    return Err(err);
                },
            };
            Ok(Rc::new(Regex::Star(r1)))
        },
        ParseTree::Plus(inner) => {
            let tmp1 = match parse_to_AST(&**inner) {
                Ok(x) => x,
                Err(err) => {
                    return Err(err);
                },
            };
            let tmp2 = tmp1.clone();
            Ok(Rc::new(Regex::Concat(tmp1, Rc::new(Regex::Star(tmp2)))))
        },
        ParseTree::QMark(inner) => {
            let tmp1 = match parse_to_AST(&**inner) {
                Ok(x) => x,
                Err(err) => {
                    return Err(err);
                },
            };
            Ok(Rc::new(Regex::Or(tmp1, Rc::new(Regex::Eps))))
        },
        ParseTree::Quantifier(inner, m, n) => {
            let tmp1 = match parse_to_AST(&**inner) {
                Ok(x) => x,
                Err(err) => {
                    return Err(err);
                },
            };
            if *m > *n {
                return Err(RegexError::QuantifierBounds);
            }
            let mut num1 = *m;
            let mut num2 = *n;
            let res = getQuantified(&tmp1, &mut num1, &mut num2);
            proof {
                lemma_quantified_builds(&**inner, &*tmp1, *m, *n);
            }
            Ok(res)
        },
        ParseTree::LQuantifier(inner, m) => {
            let tmp1 = match parse_to_AST(&**inner) {
                Ok(x) => x,
                Err(err) => {
                    return Err(err);
                },
            };
            let mut num1 = *m;
            let res = getLQuantified(&tmp1, &mut num1);
            proof {
                lemma_lquantified_builds(&**inner, &*tmp1, *m);
            }
            Ok(res)
        },
        ParseTree::UQuantifier(inner, n) => {
            let tmp1 = match parse_to_AST(&**inner) {
                Ok(x) => x,
                Err(err) => {
                    return Err(err);
                },
            };
            let mut num1: u32 = 0;
            let mut num2 = *n;
            let res = getQuantified(&tmp1, &mut num1, &mut num2);
            proof {
                lemma_quantified_builds(&**inner, &*tmp1, 0, *n);
            }
            Ok(res)
        },
        ParseTree::FQuantifier(inner, n) => {
            let tmp1 = match parse_to_AST(&**inner) {
                Ok(x) => x,
                Err(err) => {
                    return Err(err);
                },
            };
            let mut num1 = *n;
            let mut num2 = *n;
            let res = getQuantified(&tmp1, &mut num1, &mut num2);
            proof {
                lemma_quantified_builds(&**inner, &*tmp1, *n, *n);
            }
            Ok(res)
        },
        ParseTree::Paren(inner) => parse_to_AST(&**inner),
        ParseTree::CharClass(items) => Ok(Rc::new(Regex::CharClass(build_class(items, false)))),
        ParseTree::NegCharClass(items) => Ok(Rc::new(Regex::CharClass(build_class(items, true)))),
        ParseTree::Letter(x) => Ok(Rc::new(Regex::Letter(*x))),
    }
}

/// The label text of one class entry: the byte itself, or `lo-hi`.
pub open spec fn item_label(it: ClassItem) -> Seq<u8> {
    match it {
        ClassItem::Single(x) => seq![x],
        ClassItem::Range(lo, hi) => seq![lo, 45u8, hi],
    }
}

/// The label text of a class body: the entries rendered in order.
pub open spec fn items_label(items: Seq<ClassItem>) -> Seq<u8>
    decreases items.len(),
{
    if items.len() == 0 {
        Seq::empty()
    } else {
        items_label(items.drop_last()) + item_label(items.last())
    }
}

/// One label per leaf of the surface pattern, in left-to-right order: a
/// letter prints as itself, a class as `[...]`, a negated class as
/// `[^...]`.  Quantified subtrees are walked once, so the labels follow
/// the source text, not the desugared expression.
pub open spec fn leaf_labels(t: ParseTree) -> Seq<Seq<u8>>
    decreases t,
{
    match t {
        ParseTree::Regex(inner) => leaf_labels(*inner),
        ParseTree::Or(l, r) => leaf_labels(*l) + leaf_labels(*r),
        ParseTree::Concat(l, r) => leaf_labels(*l) + leaf_labels(*r),
        ParseTree::Star(inner) => leaf_labels(*inner),
        ParseTree::Plus(inner) => leaf_labels(*inner),
        ParseTree::QMark(inner) => leaf_labels(*inner),
        ParseTree::Quantifier(inner, _, _) => leaf_labels(*inner),
        ParseTree::LQuantifier(inner, _) => leaf_labels(*inner),
        ParseTree::UQuantifier(inner, _) => leaf_labels(*inner),
        ParseTree::FQuantifier(inner, _) => leaf_labels(*inner),
        ParseTree::Paren(inner) => leaf_labels(*inner),
        ParseTree::CharClass(items) => seq![seq![91u8] + items_label(items@) + seq![93u8]],
        ParseTree::NegCharClass(items) => seq![
            seq![91u8, 94u8] + items_label(items@) + seq![93u8],
        ],
        ParseTree::Letter(x) => seq![seq![x]],
    }
}

/// Renders the class body into `v`.
fn push_items_label(v: &mut Vec<u8>, items: &Vec<ClassItem>)
    ensures
        final(v)@ == old(v)@ + items_label(items@),
{
    let ghost start = v@;
    let mut k: usize = 0;
    while k < items.len()
        invariant
            k <= items@.len(),
            v@ == start + items_label(items@.take(k as int)),
        decreases items@.len() - k,
    {
        let ghost prefix = items@.take(k as int);
        match items[k] {
            ClassItem::Single(x) => {
                v.push(x);
            },
            ClassItem::Range(lo, hi) => {
                v.push(lo);
                v.push(45);
                v.push(hi);
            },
        }
        proof {
            let next = items@.take(k as int + 1);
            assert(next.drop_last() =~= prefix);
            assert(next.last() == items@[k as int]);
            assert(v@ =~= start + items_label(next));
        }
        k = k + 1;
    }
    proof {
        assert(items@.take(items@.len() as int) =~= items@);
        assert(v@ =~= start + items_label(items@));
    }
}

/// Appends one human-readable label per leaf of the pattern, in the same
/// left-to-right order in which augmentation numbers the desugared
/// leaves that come from them.
#[allow(non_snake_case)]
pub fn getStateLabels(token: &ParseTree, state_labels: &mut Vec<Vec<u8>>)
    ensures
        final(state_labels)@.len() == old(state_labels)@.len() + leaf_labels(*token).len(),
        forall|j: int|
            0 <= j < old(state_labels)@.len() ==> final(state_labels)@[j] == old(
                state_labels,
            )@[j],
        forall|j: int|
            old(state_labels)@.len() <= j < final(state_labels)@.len()
                ==> #[trigger] final(state_labels)@[j]@ == leaf_labels(*token)[
                j - old(state_labels)@.len()
            ],
    decreases *token,
{
    match token {
        ParseTree::Regex(inner) => getStateLabels(&**inner, state_labels),
        ParseTree::Or(l, r) => {
            getStateLabels(&**l, state_labels);
            getStateLabels(&**r, state_labels);
        },
        ParseTree::Concat(l, r) => {
            getStateLabels(&**l, state_labels);
            getStateLabels(&**r, state_labels);
        },
        ParseTree::Star(inner) => getStateLabels(&**inner, state_labels),
        ParseTree::Plus(inner) => getStateLabels(&**inner, state_labels),
        ParseTree::QMark(inner) => getStateLabels(&**inner, state_labels),
        ParseTree::Quantifier(inner, _, _) => getStateLabels(&**inner, state_labels),
        ParseTree::LQuantifier(inner, _) => getStateLabels(&**inner, state_labels),
        ParseTree::UQuantifier(inner, _) => getStateLabels(&**inner, state_labels),
        ParseTree::FQuantifier(inner, _) => getStateLabels(&**inner, state_labels),
        ParseTree::Paren(inner) => getStateLabels(&**inner, state_labels),
        ParseTree::CharClass(items) => {
            let mut v: Vec<u8> = Vec::new();
            v.push(91);
            push_items_label(&mut v, items);
            v.push(93);
            proof {
                assert(v@ =~= leaf_labels(*token)[0]);
            }
            state_labels.push(v);
        },
        ParseTree::NegCharClass(items) => {
            let mut v: Vec<u8> = Vec::new();
            v.push(91);
            v.push(94);
            push_items_label(&mut v, items);
            v.push(93);
            proof {
                assert(v@ =~= leaf_labels(*token)[0]);
            }
            state_labels.push(v);
        },
        ParseTree::Letter(x) => {
            let mut v: Vec<u8> = Vec::new();
            v.push(*x);
            proof {
                assert(v@ =~= leaf_labels(*token)[0]);
            }
            state_labels.push(v);
        },
    }
}

} // verus!
