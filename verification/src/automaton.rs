use vstd::prelude::*;
use std::rc::Rc;
use crate::ast::{Regex, nullable, leafcount, findLambda, count_leaves, regex_of, classes_wf};
use crate::builder::{ParseTree, RegexError, quant_ok, builds, desugared_leafcount, parse_to_AST, lemma_builds_leafcount, lemma_builds_classes_wf};
use crate::positions::{augment, augmented, constructP, constructD, constructF, addstates, predicates, letter_row, firstpos_t, lastpos_t, follow_t, lemma_predicates_len};
use crate::sets::{fp, dp, fl, lemma_sets_in_range, lemma_aug_sets, leafcount_of};

verus! {

/// Whether `curr` is listed in the final-state vector.
pub open spec fn is_final(finals: Seq<u8>, curr: int) -> bool {
    exists|j: int| 0 <= j < finals.len() && finals[j] as int == curr
}

/// Whether the edge at index `k` of the current state's adjacency row can
/// consume `s[idx]` and lead to acceptance of the rest of the input.
pub open spec fn edge_accepts(
    nfa: Seq<Seq<u8>>,
    finals: Seq<u8>,
    preds: Seq<Seq<bool>>,
    s: Seq<u8>,
    curr: int,
    idx: int,
    k: int,
) -> bool
    decreases s.len() - idx, nfa[curr].len() - k, 0nat,
        when idx < s.len()
{
    nfa[curr][k] as int >= 1 && preds[nfa[curr][k] as int - 1][s[idx] as int] && accepts_from(
        nfa,
        finals,
        preds,
        s,
        nfa[curr][k] as int,
        idx + 1,
    )
}

/// Whether some edge at index `k` or later of the current state's
/// adjacency row leads to acceptance.
pub open spec fn some_edge_accepts(
    nfa: Seq<Seq<u8>>,
    finals: Seq<u8>,
    preds: Seq<Seq<bool>>,
    s: Seq<u8>,
    curr: int,
    idx: int,
    k: int,
) -> bool
    decreases s.len() - idx, nfa[curr].len() - k, 1nat,
{
    if k < 0 || k >= nfa[curr].len() || idx >= s.len() {
        false
    } else {
        edge_accepts(nfa, finals, preds, s, curr, idx, k) || some_edge_accepts(
            nfa,
            finals,
            preds,
            s,
            curr,
            idx,
            k + 1,
        )
    }
}

/// Acceptance of the remaining input from state `curr`: at the end of the
/// input the state must be final; otherwise some outgoing edge must
/// consume the next byte and accept the rest.
pub open spec fn accepts_from(
    nfa: Seq<Seq<u8>>,
    finals: Seq<u8>,
    preds: Seq<Seq<bool>>,
    s: Seq<u8>,
    curr: int,
    idx: int,
) -> bool
    decreases s.len() - idx, nfa[curr].len() + 1, 2nat,
{
    if idx >= s.len() {
        is_final(finals, curr)
    } else {
        some_edge_accepts(nfa, finals, preds, s, curr, idx, 0)
    }
}

/// Acceptance of the remaining input by the position automaton given as
/// its follow-pair set `f`, final-position set `d` and predicate table:
/// after the last byte the current position must be a last position;
/// otherwise some follow-successor must accept the next byte and the rest.
pub open spec fn path_accepts(
    f: Set<(int, int)>,
    d: Set<int>,
    preds: Seq<Seq<bool>>,
    s: Seq<u8>,
    p: int,
    idx: int,
) -> bool
    decreases s.len() - idx,
{
    if idx >= s.len() {
        d.contains(p)
    } else {
        exists|q: int|
            #[trigger] f.contains((p, q)) && 0 <= q < preds.len() && preds[q][s[idx] as int]
                && path_accepts(f, d, preds, s, q, idx + 1)
    }
}

/// The adjacency rows of the automaton as a sequence of sequences.
pub open spec fn rows(nfa: Vec<Vec<u8>>) -> Seq<Seq<u8>> {
    Seq::new(nfa@.len(), |i: int| nfa@[i]@)
}

/// The predicate rows of the automaton as a sequence of sequences.
pub open spec fn rows_b(tbl: Vec<Vec<bool>>) -> Seq<Seq<bool>> {
    Seq::new(tbl@.len(), |i: int| tbl@[i]@)
}

/// Well-formedness of the adjacency and predicate tables: one state per
/// position plus the start state, every edge leads to a position state,
/// and every predicate row covers the 256 byte values.
pub open spec fn table_wf(nfa: Seq<Seq<u8>>, preds: Seq<Seq<bool>>) -> bool {
    &&& nfa.len() == preds.len() + 1
    &&& nfa.len() <= 256
    &&& forall|i: int, k: int|
        0 <= i < nfa.len() && 0 <= k < nfa[i].len() ==> 1 <= #[trigger] nfa[i][k] <= preds.len()
    &&& forall|j: int| 0 <= j < preds.len() ==> #[trigger] preds[j].len() == 256
}

/// Checks whether a state is a final state.
pub fn checkstate(curr: usize, final_states: &Vec<u8>) -> (res: bool)
    ensures
        res == is_final(final_states@, curr as int),
{
    let mut i: usize = 0;
    while i < final_states.len()
        invariant
            i <= final_states@.len(),
            forall|j: int| 0 <= j < i ==> #[trigger] final_states@[j] as int != curr as int,
        decreases final_states@.len() - i,
    {
        if (final_states[i] as usize) == curr {
            return true;
        }
        i = i + 1;
    }
    false
}

/// Checks the remaining input against the automaton by a depth-first
/// nondeterministic search: from the current state, try every outgoing
/// edge whose predicate accepts the next byte.
pub fn checkstr(
    s: &[u8],
    nfa: &Vec<Vec<u8>>,
    final_states: &Vec<u8>,
    curr: usize,
    idx: usize,
    state_letter: &Vec<Vec<bool>>,
) -> (res: bool)
    requires
        table_wf(rows(*nfa), rows_b(*state_letter)),
        curr < nfa@.len(),
        idx <= s@.len(),
    ensures
        res == accepts_from(
            rows(*nfa),
            final_states@,
            rows_b(*state_letter),
            s@,
            curr as int,
            idx as int,
        ),
    decreases s@.len() - idx,
{
    let ghost nfad = rows(*nfa);
    let ghost predsd = rows_b(*state_letter);
    let pass = checkstate(curr, final_states);
    if idx == s.len() {
        return pass;
    }
    let row = &nfa[curr];
    let mut k: usize = 0;
    while k < row.len()
        invariant
            table_wf(nfad, predsd),
            nfad == rows(*nfa),
            predsd == rows_b(*state_letter),
            curr < nfa@.len(),
            idx < s@.len(),
            row@ == nfad[curr as int],
            k <= row@.len(),
            accepts_from(nfad, final_states@, predsd, s@, curr as int, idx as int)
                == some_edge_accepts(
                nfad,
                final_states@,
                predsd,
                s@,
                curr as int,
                idx as int,
                k as int,
            ),
        decreases row@.len() - k,
    {
        let t = row[k];
        proof {
            assert(nfad[curr as int][k as int] == t);
            assert(1 <= t <= predsd.len());
            assert(predsd[t as int - 1] == state_letter@[t as int - 1]@);
            assert(predsd[t as int - 1].len() == 256);
        }
        let mut sub = false;
        if state_letter[(t - 1) as usize][s[idx] as usize] {
            sub = checkstr(s, nfa, final_states, t as usize, idx + 1, state_letter);
        }
        if sub {
            proof {
                assert(edge_accepts(nfad, final_states@, predsd, s@, curr as int, idx as int,
                    k as int));
                assert(some_edge_accepts(nfad, final_states@, predsd, s@, curr as int,
                    idx as int, k as int));
            }
            return true;
        }
        proof {
            assert(!edge_accepts(nfad, final_states@, predsd, s@, curr as int, idx as int,
                k as int));
            assert(some_edge_accepts(nfad, final_states@, predsd, s@, curr as int, idx as int,
                k as int) == some_edge_accepts(nfad, final_states@, predsd, s@, curr as int,
                idx as int, k as int + 1));
        }
        k = k + 1;
    }
    proof {
        assert(!some_edge_accepts(nfad, final_states@, predsd, s@, curr as int, idx as int,
            k as int));
    }
    false
}

/// Acceptance of the whole input by the position automaton of the
/// (desugared, un-augmented) expression: the empty string is accepted
/// exactly when the expression is nullable; a nonempty one when some
/// first position accepts its first byte and a follow-path through the
/// automaton consumes the rest and ends in a last position.
pub open spec fn glushkov_accepts(e: Regex, s: Seq<u8>) -> bool {
    if s.len() == 0 {
        nullable(e)
    } else {
        exists|q: int|
            #[trigger] fp(e, 0).contains(q) && 0 <= q < predicates(e).len() && predicates(e)[q][
                s[0] as int
            ] && path_accepts(fl(e, 0), dp(e, 0), predicates(e), s, q, 1)
    }
}

/// How the adjacency rows, final-state vector and predicate table encode
/// the three position sets: state `k` stands for position `k - 1`, and
/// state 0 is the virtual start state whose row holds the first
/// positions.
pub open spec fn encodes(
    nfa: Seq<Seq<u8>>,
    finals: Seq<u8>,
    preds: Seq<Seq<bool>>,
    fpS: Set<int>,
    dpS: Set<int>,
    flS: Set<(int, int)>,
) -> bool {
    &&& table_wf(nfa, preds)
    &&& (forall|t: u8| #[trigger] nfa[0].contains(t) <==> t >= 1 && fpS.contains(t as int - 1))
    &&& (forall|i: int, t: u8|
        1 <= i < nfa.len() ==> (#[trigger] nfa[i].contains(t) <==> t >= 1 && flS.contains(
            (i - 1, t as int - 1),
        )))
    &&& (forall|x: u8| #[trigger] finals.contains(x) <==> x >= 1 && dpS.contains(x as int - 1))
    &&& (forall|p: int| #[trigger] fpS.contains(p) ==> 0 <= p < preds.len())
    &&& (forall|p: int| #[trigger] dpS.contains(p) ==> 0 <= p < preds.len())
    &&& (forall|pr: (int, int)| #[trigger]
        flS.contains(pr) ==> 0 <= pr.0 < preds.len() && 0 <= pr.1 < preds.len())
}

/// The depth-first search from a position state decides exactly the
/// follow-path acceptance of the corresponding position.
proof fn lemma_accepts_iff(
    nfa: Seq<Seq<u8>>,
    finals: Seq<u8>,
    preds: Seq<Seq<bool>>,
    fpS: Set<int>,
    dpS: Set<int>,
    flS: Set<(int, int)>,
    s: Seq<u8>,
    state: int,
    idx: int,
)
    requires
        encodes(nfa, finals, preds, fpS, dpS, flS),
        1 <= state < nfa.len(),
        0 <= idx <= s.len(),
    ensures
        accepts_from(nfa, finals, preds, s, state, idx) == path_accepts(
            flS,
            dpS,
            preds,
            s,
            state - 1,
            idx,
        ),
    decreases s.len() - idx, 2nat, 0nat,
{
    if idx >= s.len() {
        if is_final(finals, state) {
            let j = choose|j: int| 0 <= j < finals.len() && finals[j] as int == state;
            assert(finals.contains(finals[j]));
            assert(dpS.contains(state - 1));
        }
        if dpS.contains(state - 1) {
            let x = (state) as u8;
            assert(x as int == state);
            assert(finals.contains(x));
            let j = choose|j: int| 0 <= j < finals.len() && finals[j] == x;
            assert(is_final(finals, state));
        }
    } else {
        if accepts_from(nfa, finals, preds, s, state, idx) {
            lemma_some_edge_to_path(nfa, finals, preds, fpS, dpS, flS, s, state, idx, 0);
        }
        if path_accepts(flS, dpS, preds, s, state - 1, idx) {
            let q = choose|q: int|
                #[trigger] flS.contains((state - 1, q)) && 0 <= q < preds.len() && preds[q][
                    s[idx] as int
                ] && path_accepts(flS, dpS, preds, s, q, idx + 1);
            let t = (q + 1) as u8;
            assert(t as int == q + 1);
            assert(nfa[state].contains(t));
            let j = choose|j: int| 0 <= j < nfa[state].len() && nfa[state][j] == t;
            lemma_accepts_iff(nfa, finals, preds, fpS, dpS, flS, s, q + 1, idx + 1);
            assert(edge_accepts(nfa, finals, preds, s, state, idx, j));
            lemma_edge_to_some(nfa, finals, preds, s, state, idx, j);
        }
    }
}

/// A successful scan of the adjacency row yields a follow-path.
proof fn lemma_some_edge_to_path(
    nfa: Seq<Seq<u8>>,
    finals: Seq<u8>,
    preds: Seq<Seq<bool>>,
    fpS: Set<int>,
    dpS: Set<int>,
    flS: Set<(int, int)>,
    s: Seq<u8>,
    state: int,
    idx: int,
    k: int,
)
    requires
        encodes(nfa, finals, preds, fpS, dpS, flS),
        1 <= state < nfa.len(),
        0 <= idx < s.len(),
        some_edge_accepts(nfa, finals, preds, s, state, idx, k),
    ensures
        path_accepts(flS, dpS, preds, s, state - 1, idx),
    decreases s.len() - idx, 1nat, nfa[state].len() - k,
{
    if edge_accepts(nfa, finals, preds, s, state, idx, k) {
        let t = nfa[state][k];
        assert(nfa[state].contains(t));
        assert(flS.contains((state - 1, t as int - 1)));
        lemma_accepts_iff(nfa, finals, preds, fpS, dpS, flS, s, t as int, idx + 1);
        assert(flS.contains((state - 1, t as int - 1)) && 0 <= t as int - 1 < preds.len()
            && preds[t as int - 1][s[idx] as int] && path_accepts(flS, dpS, preds, s,
            t as int - 1, idx + 1));
    } else {
        lemma_some_edge_to_path(nfa, finals, preds, fpS, dpS, flS, s, state, idx, k + 1);
    }
}

/// A single accepting edge makes the whole row scan succeed.
proof fn lemma_edge_to_some(
    nfa: Seq<Seq<u8>>,
    finals: Seq<u8>,
    preds: Seq<Seq<bool>>,
    s: Seq<u8>,
    state: int,
    idx: int,
    j: int,
)
    requires
        0 <= idx < s.len(),
        0 <= state < nfa.len(),
        0 <= j < nfa[state].len(),
        edge_accepts(nfa, finals, preds, s, state, idx, j),
    ensures
        some_edge_accepts(nfa, finals, preds, s, state, idx, 0),
{
    assert(some_edge_accepts(nfa, finals, preds, s, state, idx, j));
    lemma_some_down(nfa, finals, preds, s, state, idx, j);
}

/// Row-scan success at a later index propagates back to the start of the
/// row.
proof fn lemma_some_down(
    nfa: Seq<Seq<u8>>,
    finals: Seq<u8>,
    preds: Seq<Seq<bool>>,
    s: Seq<u8>,
    state: int,
    idx: int,
    k: int,
)
    requires
        0 <= idx < s.len(),
        0 <= k,
        some_edge_accepts(nfa, finals, preds, s, state, idx, k),
    ensures
        some_edge_accepts(nfa, finals, preds, s, state, idx, 0),
    decreases k,
{
    if k > 0 {
        assert(some_edge_accepts(nfa, finals, preds, s, state, idx, k - 1));
        lemma_some_down(nfa, finals, preds, s, state, idx, k - 1);
    }
}

/// The search from the virtual start state decides exactly the automaton
/// acceptance of a nonempty input.
proof fn lemma_start_iff(
    nfa: Seq<Seq<u8>>,
    finals: Seq<u8>,
    preds: Seq<Seq<bool>>,
    fpS: Set<int>,
    dpS: Set<int>,
    flS: Set<(int, int)>,
    s: Seq<u8>,
)
    requires
        encodes(nfa, finals, preds, fpS, dpS, flS),
        s.len() > 0,
    ensures
        accepts_from(nfa, finals, preds, s, 0, 0) == exists|q: int|
            #[trigger] fpS.contains(q) && 0 <= q < preds.len() && preds[q][s[0] as int]
                && path_accepts(flS, dpS, preds, s, q, 1),
{
    if accepts_from(nfa, finals, preds, s, 0, 0) {
        lemma_start_some_edge(nfa, finals, preds, fpS, dpS, flS, s, 0);
    }
    if exists|q: int|
        #[trigger] fpS.contains(q) && 0 <= q < preds.len() && preds[q][s[0] as int]
            && path_accepts(flS, dpS, preds, s, q, 1) {
        let q = choose|q: int|
            #[trigger] fpS.contains(q) && 0 <= q < preds.len() && preds[q][s[0] as int]
                && path_accepts(flS, dpS, preds, s, q, 1);
        let t = (q + 1) as u8;
        assert(t as int == q + 1);
        assert(nfa[0].contains(t));
        let j = choose|j: int| 0 <= j < nfa[0].len() && nfa[0][j] == t;
        lemma_accepts_iff(nfa, finals, preds, fpS, dpS, flS, s, q + 1, 1);
        assert(edge_accepts(nfa, finals, preds, s, 0, 0, j));
        lemma_edge_to_some(nfa, finals, preds, s, 0, 0, j);
    }
}

/// A successful scan of the start row yields an accepted first position.
proof fn lemma_start_some_edge(
    nfa: Seq<Seq<u8>>,
    finals: Seq<u8>,
    preds: Seq<Seq<bool>>,
    fpS: Set<int>,
    dpS: Set<int>,
    flS: Set<(int, int)>,
    s: Seq<u8>,
    k: int,
)
    requires
        encodes(nfa, finals, preds, fpS, dpS, flS),
        s.len() > 0,
        some_edge_accepts(nfa, finals, preds, s, 0, 0, k),
    ensures
        exists|q: int|
            #[trigger] fpS.contains(q) && 0 <= q < preds.len() && preds[q][s[0] as int]
                && path_accepts(flS, dpS, preds, s, q, 1),
    decreases nfa[0].len() - k,
{
    if edge_accepts(nfa, finals, preds, s, 0, 0, k) {
        let t = nfa[0][k];
        assert(nfa[0].contains(t));
        assert(fpS.contains(t as int - 1));
        lemma_accepts_iff(nfa, finals, preds, fpS, dpS, flS, s, t as int, 1);
        assert(fpS.contains(t as int - 1) && 0 <= t as int - 1 < preds.len() && preds[
            t as int - 1
        ][s[0] as int] && path_accepts(flS, dpS, preds, s, t as int - 1, 1));
    } else {
        lemma_start_some_edge(nfa, finals, preds, fpS, dpS, flS, s, k + 1);
    }
}

/// A compiled position automaton: adjacency rows for the start state and
/// one state per position, the final-state vector, the per-position
/// predicate table, nullability of the whole expression, and the number
/// of positions.  The expression it was compiled from is kept as ghost
/// state so that contracts can speak about it.
pub struct Automaton {
    pub nfa: Vec<Vec<u8>>,
    pub final_states: Vec<u8>,
    pub state_letter: Vec<Vec<bool>>,
    pub is_nullable: bool,
    pub n_positions: u8,
    pub src: Ghost<Regex>,
}

/// Well-formedness of a compiled automaton with respect to the
/// expression it was compiled from.
pub open spec fn aut_wf(aut: Automaton) -> bool {
    let e = aut.src@;
    let n = leafcount(e) as int;
    &&& n <= 255
    &&& aut.n_positions as int == n
    &&& aut.nfa@.len() == n + 1
    &&& aut.state_letter@.len() == n
    &&& rows_b(aut.state_letter) == predicates(e)
    &&& aut.is_nullable == nullable(e)
    &&& encodes(
        rows(aut.nfa),
        aut.final_states@,
        rows_b(aut.state_letter),
        fp(e, 0),
        dp(e, 0),
        fl(e, 0),
    )
}

/// Decides whether the input string is in the language of the compiled
/// expression: the empty input is accepted exactly when the expression
/// is nullable; otherwise the automaton is searched from the start
/// state.
pub fn check(aut: &Automaton, s: &[u8]) -> (res: bool)
    requires
        aut_wf(*aut),
    ensures
        res == glushkov_accepts(aut.src@, s@),
{
    if s.len() == 0 {
        aut.is_nullable
    } else {
        let r = checkstr(s, &aut.nfa, &aut.final_states, 0, 0, &aut.state_letter);
        proof {
            lemma_start_iff(
                rows(aut.nfa),
                aut.final_states@,
                rows_b(aut.state_letter),
                fp(aut.src@, 0),
                dp(aut.src@, 0),
                fl(aut.src@, 0),
                s@,
            );
        }
        r
    }
}

/// Compiles a concrete parse tree into a position automaton: the tree is
/// desugared into an expression, the expression is augmented, the three
/// position sets are computed, and the adjacency, final-state and
/// predicate tables are assembled.  A quantifier with its bounds
/// reversed, or an expression with more positions than the `u8` state
/// numbering can hold, is rejected.
pub fn compile(tree: &ParseTree) -> (r: Result<Automaton, RegexError>)
    ensures
        r is Ok <==> quant_ok(*tree) && desugared_leafcount(*tree) <= 255,
        r matches Ok(aut) ==> aut_wf(aut) && builds(*tree, aut.src@),
        r matches Err(err) ==> (err == RegexError::QuantifierBounds <==> !quant_ok(*tree)),
        r matches Err(err) ==> (err == RegexError::TooManyPositions <==> quant_ok(*tree)
            && desugared_leafcount(*tree) > 255),
{
    let x = match parse_to_AST(tree) {
        Ok(x) => x,
        Err(err) => {
            return Err(err);
        },
    };
    proof {
        lemma_builds_leafcount(tree, &*x);
        lemma_builds_classes_wf(tree, &*x);
    }
    let count = count_leaves(&x);
    if count > 255 {
        return Err(RegexError::TooManyPositions);
    }
    let ghost e = regex_of(&x);
    let ghost n = leafcount(e) as int;
    proof {
        lemma_aug_sets(&*x, 0);
        lemma_sets_in_range(&*x, 0);
        lemma_predicates_len(&*x);
    }
    let mut cnt: u8 = 0;
    let a = augment(&x, &mut cnt);
    let p_set = constructP(&a);
    let d_set = constructD(&a);
    let f_set = constructF(&a);
    let mut state_letter: Vec<Vec<bool>> = Vec::new();
    addstates(&x, &mut state_letter);
    let lam = findLambda(&x);
    let is_nullable = matches!(*lam, Regex::Eps);
    proof {
        assert(rows_b(state_letter) =~= predicates(e));
        assert forall|k: int| 0 <= k < p_set@.len() implies (p_set@[k] as int) < n && fp(
            e,
            0,
        ).contains((#[trigger] p_set@[k]) as int) by {
            assert(p_set@.to_set().contains(p_set@[k]));
            assert(firstpos_t(augmented(e, 0)).contains(p_set@[k]));
        }
        assert forall|k: int| 0 <= k < d_set@.len() implies (d_set@[k] as int) < n && dp(
            e,
            0,
        ).contains((#[trigger] d_set@[k]) as int) by {
            assert(d_set@.to_set().contains(d_set@[k]));
            assert(lastpos_t(augmented(e, 0)).contains(d_set@[k]));
        }
        assert forall|k: int| 0 <= k < f_set@.len() implies (f_set@[k].0 as int) < n && (f_set@[
            k
        ].1 as int) < n && fl(e, 0).contains(
            ((#[trigger] f_set@[k]).0 as int, f_set@[k].1 as int),
        ) by {
            assert(f_set@.to_set().contains(f_set@[k]));
            assert(follow_t(augmented(e, 0)).contains(f_set@[k]));
        }
    }
    let mut nfa: Vec<Vec<u8>> = Vec::new();
    let mut row0: Vec<u8> = Vec::new();
    let mut k: usize = 0;
    while k < p_set.len()
        invariant
            k <= p_set@.len(),
            n <= 255,
            forall|j: int|
                0 <= j < p_set@.len() ==> fp(e, 0).contains((#[trigger] p_set@[j]) as int)
                    && (p_set@[j] as int) < n,
            p_set@.to_set() == firstpos_t(augmented(e, 0)),
            forall|x2: u8| #[trigger] firstpos_t(augmented(e, 0)).contains(x2) <==> fp(e, 0).contains(x2 as int),
            forall|t: u8| #[trigger]
                row0@.contains(t) <==> t >= 1 && exists|j: int|
                    0 <= j < k && (#[trigger] p_set@[j]) as int == t as int - 1,
        decreases p_set@.len() - k,
    {
        let v = p_set[k];
        let ghost prev = row0@;
        row0.push(v + 1);
        proof {
            prev.lemma_push_to_set_commute((v + 1) as u8);
            assert(row0@ == prev.push((v + 1) as u8));
            assert forall|t: u8| #[trigger] row0@.contains(t) implies t >= 1 && exists|j: int|
                0 <= j < k + 1 && (#[trigger] p_set@[j]) as int == t as int - 1 by {
                if t == v + 1 {
                    assert(p_set@[k as int] as int == t as int - 1);
                } else {
                    assert(prev.contains(t));
                }
            }
            assert forall|t: u8|
                t >= 1 && (exists|j: int|
                    0 <= j < k + 1 && (#[trigger] p_set@[j]) as int == t as int - 1) implies
                #[trigger] row0@.contains(t) by {
                let j = choose|j: int| 0 <= j < k + 1 && (#[trigger] p_set@[j]) as int == t as int
                    - 1;
                if j < k {
                    assert(prev.contains(t));
                    let j2 = choose|j2: int| 0 <= j2 < prev.len() && prev[j2] == t;
                    assert(row0@[j2] == t);
                } else {
                    assert(t == v + 1);
                    assert(row0@[prev.len() as int] == t);
                }
                assert(row0@.contains(t));
            }
        }
        k = k + 1;
    }
    proof {
        assert forall|t: u8| #[trigger] row0@.contains(t) <==> t >= 1 && fp(e, 0).contains(
            t as int - 1,
        ) by {
            if t >= 1 && fp(e, 0).contains(t as int - 1) {
                assert(firstpos_t(augmented(e, 0)).contains((t - 1) as u8));
                assert(p_set@.to_set().contains((t - 1) as u8));
                let j = choose|j: int| 0 <= j < p_set@.len() && p_set@[j] == (t - 1) as u8;
                assert(p_set@[j] as int == t as int - 1);
            }
            if row0@.contains(t) {
                let j = choose|j: int|
                    0 <= j < p_set@.len() && (#[trigger] p_set@[j]) as int == t as int - 1;
                assert(p_set@.to_set().contains(p_set@[j]));
                assert(fp(e, 0).contains(t as int - 1));
            }
        }
    }
    nfa.push(row0);
    let mut i: usize = 1;
    while i <= cnt as usize
        invariant
            1 <= i <= n + 1,
            cnt as int == n,
            n <= 255,
            nfa@.len() == i,
            forall|j: int|
                0 <= j < f_set@.len() ==> fl(e, 0).contains(
                    ((#[trigger] f_set@[j]).0 as int, f_set@[j].1 as int),
                ) && (f_set@[j].0 as int) < n && (f_set@[j].1 as int) < n,
            f_set@.to_set() == follow_t(augmented(e, 0)),
            forall|pr: (u8, u8)| #[trigger] follow_t(augmented(e, 0)).contains(pr) <==> fl(
                e,
                0,
            ).contains((pr.0 as int, pr.1 as int)),
            forall|t: u8| #[trigger] nfa@[0]@.contains(t) <==> t >= 1 && fp(e, 0).contains(
                t as int - 1,
            ),
            forall|r: int, t: u8|
                1 <= r < i ==> (#[trigger] nfa@[r]@.contains(t) <==> t >= 1 && fl(e, 0).contains(
                    (r - 1, t as int - 1),
                )),
        decreases n + 1 - i,
    {
        let mut row: Vec<u8> = Vec::new();
        let mut k2: usize = 0;
        while k2 < f_set.len()
            invariant
                1 <= i <= n,
                n <= 255,
                k2 <= f_set@.len(),
                forall|j: int|
                    0 <= j < f_set@.len() ==> fl(e, 0).contains(
                        ((#[trigger] f_set@[j]).0 as int, f_set@[j].1 as int),
                    ) && (f_set@[j].0 as int) < n && (f_set@[j].1 as int) < n,
                f_set@.to_set() == follow_t(augmented(e, 0)),
                forall|t: u8| #[trigger]
                    row@.contains(t) <==> t >= 1 && exists|j: int|
                        0 <= j < k2 && #[trigger] f_set@[j] == (((i - 1) as u8, (t - 1) as u8)),
            decreases f_set@.len() - k2,
        {
            let pair = f_set[k2];
            if pair.0 as usize == i - 1 {
                let ghost prev = row@;
                row.push(pair.1 + 1);
                proof {
                    prev.lemma_push_to_set_commute((pair.1 + 1) as u8);
                    assert(row@ == prev.push((pair.1 + 1) as u8));
                    assert forall|t: u8| #[trigger] row@.contains(t) implies t >= 1 && exists|
                        j: int,
                    | 0 <= j < k2 + 1 && #[trigger] f_set@[j] == (((i - 1) as u8, (t
                        - 1) as u8)) by {
                        if t == pair.1 + 1 {
                            assert(f_set@[k2 as int] == (((i - 1) as u8, (t - 1) as u8)));
                        } else {
                            assert(prev.contains(t));
                        }
                    }
                    assert forall|t: u8|
                        t >= 1 && (exists|j: int|
                            0 <= j < k2 + 1 && #[trigger] f_set@[j] == (((i - 1) as u8, (t
                                - 1) as u8))) implies #[trigger] row@.contains(t) by {
                        let j = choose|j: int|
                            0 <= j < k2 + 1 && #[trigger] f_set@[j] == (((i - 1) as u8, (t
                                - 1) as u8));
                        if j < k2 {
                            assert(prev.contains(t));
                            let j2 = choose|j2: int| 0 <= j2 < prev.len() && prev[j2] == t;
                            assert(row@[j2] == t);
                        } else {
                            assert(t == pair.1 + 1);
                            assert(row@[prev.len() as int] == t);
                        }
                        assert(row@.contains(t));
                    }
                }
            } else {
                proof {
                    assert forall|t: u8|
                        t >= 1 && (exists|j: int|
                            0 <= j < k2 + 1 && #[trigger] f_set@[j] == (((i - 1) as u8, (t
                                - 1) as u8))) implies #[trigger] row@.contains(t) by {
                        let j = choose|j: int|
                            0 <= j < k2 + 1 && #[trigger] f_set@[j] == (((i - 1) as u8, (t
                                - 1) as u8));
                        assert(j < k2);
                    }
                }
            }
            k2 = k2 + 1;
        }
        proof {
            assert forall|t: u8| #[trigger] row@.contains(t) <==> t >= 1 && fl(e, 0).contains(
                ((i - 1) as int, t as int - 1),
            ) by {
                if t >= 1 && fl(e, 0).contains(((i - 1) as int, t as int - 1)) {
                    assert(follow_t(augmented(e, 0)).contains((((i - 1) as u8, (t - 1) as u8))));
                    assert(f_set@.to_set().contains((((i - 1) as u8, (t - 1) as u8))));
                    let j = choose|j: int|
                        0 <= j < f_set@.len() && f_set@[j] == (((i - 1) as u8, (t - 1) as u8));
                    assert(0 <= j < f_set@.len() && f_set@[j] == (((i - 1) as u8, (t
                        - 1) as u8)));
                }
                if row@.contains(t) {
                    let j = choose|j: int|
                        0 <= j < f_set@.len() && #[trigger] f_set@[j] == (((i - 1) as u8, (t
                            - 1) as u8));
                    assert(f_set@.to_set().contains(f_set@[j]));
                    assert(fl(e, 0).contains(((i - 1) as int, t as int - 1)));
                }
            }
        }
        nfa.push(row);
        i = i + 1;
    }
    let mut finals: Vec<u8> = Vec::new();
    let mut k3: usize = 0;
    while k3 < d_set.len()
        invariant
            k3 <= d_set@.len(),
            n <= 255,
            forall|j: int|
                0 <= j < d_set@.len() ==> dp(e, 0).contains((#[trigger] d_set@[j]) as int)
                    && (d_set@[j] as int) < n,
            d_set@.to_set() == lastpos_t(augmented(e, 0)),
            forall|x2: u8| #[trigger] lastpos_t(augmented(e, 0)).contains(x2) <==> dp(e, 0).contains(x2 as int),
            forall|t: u8| #[trigger]
                finals@.contains(t) <==> t >= 1 && exists|j: int|
                    0 <= j < k3 && (#[trigger] d_set@[j]) as int == t as int - 1,
        decreases d_set@.len() - k3,
    {
        let v = d_set[k3];
        let ghost prev = finals@;
        finals.push(v + 1);
        proof {
            prev.lemma_push_to_set_commute((v + 1) as u8);
            assert(finals@ == prev.push((v + 1) as u8));
            assert forall|t: u8| #[trigger] finals@.contains(t) implies t >= 1 && exists|j: int|
                0 <= j < k3 + 1 && (#[trigger] d_set@[j]) as int == t as int - 1 by {
                if t == v + 1 {
                    assert(d_set@[k3 as int] as int == t as int - 1);
                } else {
                    assert(prev.contains(t));
                }
            }
            assert forall|t: u8|
                t >= 1 && (exists|j: int|
                    0 <= j < k3 + 1 && (#[trigger] d_set@[j]) as int == t as int - 1) implies
                #[trigger] finals@.contains(t) by {
                let j = choose|j: int| 0 <= j < k3 + 1 && (#[trigger] d_set@[j]) as int == t as int
                    - 1;
                if j < k3 {
                    assert(prev.contains(t));
                    let j2 = choose|j2: int| 0 <= j2 < prev.len() && prev[j2] == t;
                    assert(finals@[j2] == t);
                } else {
                    assert(t == v + 1);
                    assert(finals@[prev.len() as int] == t);
                }
                assert(finals@.contains(t));
            }
        }
        k3 = k3 + 1;
    }
    proof {
        assert forall|t: u8| #[trigger] finals@.contains(t) <==> t >= 1 && dp(e, 0).contains(
            t as int - 1,
        ) by {
            if t >= 1 && dp(e, 0).contains(t as int - 1) {
                assert(lastpos_t(augmented(e, 0)).contains((t - 1) as u8));
                assert(d_set@.to_set().contains((t - 1) as u8));
                let j = choose|j: int| 0 <= j < d_set@.len() && d_set@[j] == (t - 1) as u8;
                assert(d_set@[j] as int == t as int - 1);
            }
            if finals@.contains(t) {
                let j = choose|j: int|
                    0 <= j < d_set@.len() && (#[trigger] d_set@[j]) as int == t as int - 1;
                assert(d_set@.to_set().contains(d_set@[j]));
                assert(dp(e, 0).contains(t as int - 1));
            }
        }
    }
    let aut = Automaton {
        nfa,
        final_states: finals,
        state_letter,
        is_nullable,
        n_positions: cnt,
        src: Ghost(regex_of(&x)),
    };
    proof {
        assert(aut.src@ == e);
        assert(rows(aut.nfa).len() == n + 1);
        assert(rows_b(aut.state_letter).len() == n);
        assert(forall|r: int, k4: int|
            0 <= r < rows(aut.nfa).len() && 0 <= k4 < rows(aut.nfa)[r].len() ==> 1 <= #[trigger]
                rows(aut.nfa)[r][k4] <= n) by {
            assert forall|r: int, k4: int|
                0 <= r < rows(aut.nfa).len() && 0 <= k4 < rows(aut.nfa)[r].len() implies 1
                <= #[trigger] rows(aut.nfa)[r][k4] <= n by {
                let t = rows(aut.nfa)[r][k4];
                assert(aut.nfa@[r]@.contains(t));
                if r == 0 {
                    assert(t >= 1 && fp(e, 0).contains(t as int - 1));
                } else {
                    assert(t >= 1 && fl(e, 0).contains((r - 1, t as int - 1)));
                }
            }
        }
        assert(forall|j: int|
            0 <= j < rows_b(aut.state_letter).len() ==> #[trigger] rows_b(aut.state_letter)[
            j].len() == 256) by {
            assert(rows_b(aut.state_letter) == predicates(e));
            lemma_predicates_rows(&*x);
        }
        assert(table_wf(rows(aut.nfa), rows_b(aut.state_letter)));
    }
    Ok(aut)
}

/// Every predicate-table row of an expression with full class tables
/// covers the 256 byte values.
pub proof fn lemma_predicates_rows(e: &Regex)
    requires
        classes_wf(*e),
    ensures
        forall|j: int|
            0 <= j < predicates(*e).len() ==> #[trigger] predicates(*e)[j].len() == 256,
    decreases *e,
{
    match e {
        Regex::Or(a, b) => {
            lemma_predicates_rows(&**a);
            lemma_predicates_rows(&**b);
            assert forall|j: int| 0 <= j < predicates(*e).len() implies #[trigger] predicates(
                *e,
            )[j].len() == 256 by {
                if j < predicates(**a).len() {
                    assert(predicates(*e)[j] == predicates(**a)[j]);
                } else {
                    assert(predicates(*e)[j] == predicates(**b)[j - predicates(**a).len()]);
                }
            }
        },
        Regex::Concat(a, b) => {
            lemma_predicates_rows(&**a);
            lemma_predicates_rows(&**b);
            assert forall|j: int| 0 <= j < predicates(*e).len() implies #[trigger] predicates(
                *e,
            )[j].len() == 256 by {
                if j < predicates(**a).len() {
                    assert(predicates(*e)[j] == predicates(**a)[j]);
                } else {
                    assert(predicates(*e)[j] == predicates(**b)[j - predicates(**a).len()]);
                }
            }
        },
        Regex::Star(a) => {
            lemma_predicates_rows(&**a);
            assert(predicates(*e) == predicates(**a));
            assert forall|j: int| 0 <= j < predicates(*e).len() implies #[trigger] predicates(
                *e,
            )[j].len() == 256 by {
                assert(predicates(*e)[j] == predicates(**a)[j]);
            }
        },
        Regex::Letter(x) => {
            assert(predicates(*e) == seq![letter_row(*x)]);
            assert(letter_row(*x).len() == 256);
            assert forall|j: int| 0 <= j < predicates(*e).len() implies #[trigger] predicates(
                *e,
            )[j].len() == 256 by {
                assert(j == 0);
                assert(predicates(*e)[0] == letter_row(*x));
            }
        },
        Regex::CharClass(v) => {
            assert(predicates(*e) == seq![v@]);
            assert forall|j: int| 0 <= j < predicates(*e).len() implies #[trigger] predicates(
                *e,
            )[j].len() == 256 by {
                assert(j == 0);
                assert(predicates(*e)[0] == v@);
            }
        },
        _ => {},
    }
}

} // verus!
