use vstd::prelude::*;
use std::rc::Rc;

verus! {

/// A regular expression over the alphabet of the 256 byte values.
///
/// `Letter` matches exactly one occurrence of its byte; `CharClass` matches
/// exactly one byte whose entry in the 256-element membership table is true.
/// After augmentation every leaf is a `Letter` that carries a position id
/// instead of a symbol; the other variants keep their shape.  Subtrees are
/// shared through `Rc` and never mutated once built.
pub enum Regex {
    Empty,
    Eps,
    Letter(u8),
    CharClass(Vec<bool>),
    Or(Rc<Regex>, Rc<Regex>),
    Concat(Rc<Regex>, Rc<Regex>),
    Star(Rc<Regex>),
}

/// A subexpression is nullable when its language contains the empty string.
pub open spec fn nullable(e: Regex) -> bool
    decreases e,
{
    match e {
        Regex::Empty => false,
        Regex::Eps => true,
        Regex::Letter(_) => false,
        Regex::CharClass(_) => false,
        Regex::Or(a, b) => nullable(*a) || nullable(*b),
        Regex::Concat(a, b) => nullable(*a) && nullable(*b),
        Regex::Star(_) => true,
    }
}

/// The number of symbol-matching leaves: the number of positions the
/// expression receives under augmentation.
pub open spec fn leafcount(e: Regex) -> nat
    decreases e,
{
    match e {
        Regex::Empty => 0,
        Regex::Eps => 0,
        Regex::Letter(_) => 1,
        Regex::CharClass(_) => 1,
        Regex::Or(a, b) => leafcount(*a) + leafcount(*b),
        Regex::Concat(a, b) => leafcount(*a) + leafcount(*b),
        Regex::Star(a) => leafcount(*a),
    }
}

pub open spec fn or_of(a: Regex, b: Regex) -> Regex {
    Regex::Or(Rc::new(a), Rc::new(b))
}

pub open spec fn concat_of(a: Regex, b: Regex) -> Regex {
    Regex::Concat(Rc::new(a), Rc::new(b))
}

pub open spec fn star_of(a: Regex) -> Regex {
    Regex::Star(Rc::new(a))
}

/// Every character-class membership table in the expression covers the
/// 256 byte values.
pub open spec fn classes_wf(e: Regex) -> bool
    decreases e,
{
    match e {
        Regex::CharClass(v) => v@.len() == 256,
        Regex::Or(a, b) => classes_wf(*a) && classes_wf(*b),
        Regex::Concat(a, b) => classes_wf(*a) && classes_wf(*b),
        Regex::Star(a) => classes_wf(*a),
        _ => true,
    }
}

/// Decides nullability, returning `Eps` for a nullable expression and
/// `Empty` otherwise.
#[allow(non_snake_case)]
pub fn findLambda(regexp: &Rc<Regex>) -> (r: Rc<Regex>)
    ensures
        *r == (if nullable(**regexp) { Regex::Eps } else { Regex::Empty }),
    decreases **regexp,
{
    match &**regexp {
        Regex::Empty => Rc::new(Regex::Empty),
        Regex::Eps => Rc::new(Regex::Eps),
        Regex::Letter(_) => Rc::new(Regex::Empty),
        Regex::CharClass(_) => Rc::new(Regex::Empty),
        Regex::Or(r1, r2) => {
            let s1 = findLambda(r1);
            let s2 = findLambda(r2);
            if matches!(*s1, Regex::Eps) || matches!(*s2, Regex::Eps) {
                Rc::new(Regex::Eps)
            } else {
                Rc::new(Regex::Empty)
            }
        },
        Regex::Concat(r1, r2) => {
            let s1 = findLambda(r1);
            let s2 = findLambda(r2);
            if matches!(*s1, Regex::Eps) && matches!(*s2, Regex::Eps) {
                Rc::new(Regex::Eps)
            } else {
                Rc::new(Regex::Empty)
            }
        },
        Regex::Star(_) => Rc::new(Regex::Eps),
    }
}

/// Counts the symbol-matching leaves, saturating at 256 so that the
/// count always fits the counter type however large the expression is.
pub fn count_leaves(regexp: &Rc<Regex>) -> (r: u32)
    ensures
        r as nat == if leafcount(**regexp) > 256 {
            256nat
        } else {
            leafcount(**regexp)
        },
    decreases **regexp,
{
    match &**regexp {
        Regex::Letter(_) => 1,
        Regex::CharClass(_) => 1,
        Regex::Or(r1, r2) => {
            let x = count_leaves(r1);
            let y = count_leaves(r2);
            if x + y > 256 {
                256
            } else {
                x + y
            }
        },
        Regex::Concat(r1, r2) => {
            let x = count_leaves(r1);
            let y = count_leaves(r2);
            if x + y > 256 {
                256
            } else {
                x + y
            }
        },
        Regex::Star(r1) => count_leaves(r1),
        _ => 0,
    }
}

/// A value of the expression type, taken through a reference, for ghost
/// code.
pub open spec fn regex_of(e: &Rc<Regex>) -> Regex {
    **e
}

} // verus!
