//! What holds of every trace the builder produces: it hashes the Merkle tree
//! of its leaves and then the root beside the nonce, it satisfies the
//! transition constraints, it meets exactly the boundary assertions of the
//! honest public inputs, its capacity lanes are clear at every cycle start, it
//! is determined by its inputs, and storage never holds more digests than it
//! has slots.
use crate::air::{
    copy_of, hash_residuals, zero_seq, Assertion, all_zero, assertion_at, num_assertions, constraint_values, is_flag, lemma_constraints_vanish, transition_holds};
use crate::field::Felt;
use crate::layout::{
    row_after_pop, row_after_push, row_after_root, row_after_round, CYCLE_LEN,
    DIGEST_WIDTH, HASH_SPACE_WIDTH, RATE_WIDTH, STATE_WIDTH, STORAGE_START,
};
use crate::periodic::{flag, periodic_values_at};
use crate::schedule::{
    leaf_steps, lemma_load_kinds_perfect, lemma_loads_monotone, lemma_loads_prefix,
    lemma_tree_kinds,
    lemma_true_positions, load_kinds, loads_before, pending, tree_kinds,
};
use crate::trace::{
    commitment_step, is_pop_step, is_push_step, is_round_step, is_trace_of, log2_of, next_cycle,
    pair_of_cycle, indices_in_range,
    padded_length, root_step, round_gives, step_follows, trace_width, valid_leaf_count,
};
use vstd::arithmetic::power2::pow2;
use vstd::prelude::*;

verus! {

/// The shuffle step after the root is the last step of a cycle.
proof fn lemma_root_step_position(n: int)
    requires
        n >= 2,
    ensures
        root_step(n) % (CYCLE_LEN as int) == CYCLE_LEN - 1,
        root_step(n) >= CYCLE_LEN - 1,
        root_step(n) < commitment_step(n),
{
    vstd::arithmetic::div_mod::lemma_fundamental_div_mod_converse(
        root_step(n),
        CYCLE_LEN as int,
        n - 2,
        CYCLE_LEN - 1,
    );
}

proof fn lemma_round_row(cur: Seq<Felt>, nxt: Seq<Felt>, h: Seq<Felt>, res: Seq<Felt>)
    requires
        cur.len() >= STORAGE_START + DIGEST_WIDTH,
        h.len() == HASH_SPACE_WIDTH,
        nxt == row_after_round(cur, h),
        all_zero(res),
        res.len() == HASH_SPACE_WIDTH,
    ensures
        nxt.subrange(0, HASH_SPACE_WIDTH as int) == h,
        transition_holds(cur, nxt, true, false, false, false, res),
{
    assert(nxt.subrange(0, HASH_SPACE_WIDTH as int) =~= h);
    assert forall|j: int| 0 <= j < HASH_SPACE_WIDTH implies (#[trigger] res[0 + j]).val()
        == zero_seq(HASH_SPACE_WIDTH as nat)[0 + j].val() by {
        assert(res[j].val() == 0);
    }
}

proof fn lemma_push_row(cur: Seq<Felt>, nxt: Seq<Felt>, a: Seq<Felt>, b: Seq<Felt>, e: Seq<Felt>)
    requires
        cur.len() >= STORAGE_START + DIGEST_WIDTH,
        nxt == row_after_push(cur, a, b),
    ensures
        transition_holds(cur, nxt, false, true, false, false, e),
        forall|k: int| RATE_WIDTH <= k < STATE_WIDTH ==> nxt[k] == Felt::spec_zero(),
{
}

proof fn lemma_pop_row(cur: Seq<Felt>, nxt: Seq<Felt>, e: Seq<Felt>)
    requires
        cur.len() >= STORAGE_START + DIGEST_WIDTH,
        nxt == row_after_pop(cur),
    ensures
        transition_holds(cur, nxt, false, false, true, false, e),
        forall|k: int| RATE_WIDTH <= k < STATE_WIDTH ==> nxt[k] == Felt::spec_zero(),
{
}

proof fn lemma_root_row(cur: Seq<Felt>, nxt: Seq<Felt>, nonce: Seq<Felt>, e: Seq<Felt>)
    requires
        cur.len() >= STORAGE_START + DIGEST_WIDTH,
        nxt == row_after_root(cur, nonce),
    ensures
        transition_holds(cur, nxt, false, false, false, true, e),
        forall|k: int| RATE_WIDTH <= k < STATE_WIDTH ==> nxt[k] == Felt::spec_zero(),
{
}

/// At most one periodic flag is on at any step: round steps are not shuffle
/// steps, and a shuffle step pushes, pops or copies the root, never two of
/// these.
pub proof fn lemma_step_kinds(n: int, t: int)
    requires
        n >= 2,
    ensures
        is_round_step(n, t) ==> !is_push_step(n, t) && !is_pop_step(n, t) && t != root_step(n),
        is_push_step(n, t) ==> !is_pop_step(n, t) && t != root_step(n),
        is_pop_step(n, t) ==> t != root_step(n),
{
    lemma_root_step_position(n);
}

/// The rows named by the schedule lie inside the trace.
proof fn lemma_step_bounds(n: int)
    requires
        n >= 2,
    ensures
        0 <= root_step(n),
        root_step(n) + 1 < commitment_step(n),
        commitment_step(n) < padded_length(n) - 1,
        forall|c: int| 0 <= c < n ==> #[trigger] (c * CYCLE_LEN) < commitment_step(n),
{
    assert(padded_length(n) == 16 * n) by (nonlinear_arith)
        requires
            padded_length(n) == 2 * 8 * n,
    ;
    assert forall|c: int| 0 <= c < n implies #[trigger] (c * CYCLE_LEN) < commitment_step(n) by {
        assert(c * 8 <= (n - 1) * 8) by (nonlinear_arith)
            requires
                0 <= c < n,
        ;
    }
}

/// Every step of a trace satisfies the transition constraints. Wherever the
/// round flag is on, the next row's hash space is a result the permutation
/// round gives on the current sponge state; a one-round check that agrees
/// with the round then gives residuals `res` that vanish there. With such
/// residuals the relation holds for the flags of the step, and every
/// constraint value vanishes.
#[verifier::spinoff_prover]
#[verifier::rlimit(40)]
pub proof fn lemma_trace_satisfies_transitions<F: Fn(&Vec<Felt>, usize) -> Vec<Felt>>(
    rows: Seq<Seq<Felt>>,
    attrs: Seq<[Felt; DIGEST_WIDTH]>,
    nonce: Seq<Felt>,
    round: F,
    t: int,
    res: Seq<Felt>,
)
    requires
        valid_leaf_count(attrs.len() as int),
        is_trace_of(rows, attrs, nonce, round),
        0 <= t < rows.len() - 1,
        res.len() == HASH_SPACE_WIDTH,
        is_round_step(attrs.len() as int, t) ==> all_zero(res),
    ensures
        ({
            let n = attrs.len() as int;
            let e = rows[t + 1].subrange(0, HASH_SPACE_WIDTH as int);
            &&& transition_holds(
                rows[t],
                rows[t + 1],
                is_round_step(n, t),
                is_push_step(n, t),
                is_pop_step(n, t),
                t == root_step(n),
                res,
            )
            &&& is_round_step(n, t) ==> round_gives(round, rows[t], t, e)
            &&& all_zero(constraint_values(rows[t], rows[t + 1], periodic_values_at(n, t), res))
        }),
{
    let n = attrs.len() as int;
    let cur = rows[t];
    let nxt = rows[t + 1];
    let e = nxt.subrange(0, HASH_SPACE_WIDTH as int);
    assert(step_follows(n, attrs, nonce, round, cur, nxt, t));
    assert(cur.len() == trace_width(n) && nxt.len() == trace_width(n));
    assert(log2_of(n) >= 1);
    lemma_step_relation(attrs, nonce, round, cur, nxt, t, res);
    let pv = periodic_values_at(n, t);
    assert(is_flag(pv[0]) && is_flag(pv[1]) && is_flag(pv[2]) && is_flag(pv[3]));
    lemma_constraints_vanish(cur, nxt, pv, res);
}

#[verifier::spinoff_prover]
proof fn lemma_step_relation<F: Fn(&Vec<Felt>, usize) -> Vec<Felt>>(
    attrs: Seq<[Felt; DIGEST_WIDTH]>,
    nonce: Seq<Felt>,
    round: F,
    cur: Seq<Felt>,
    nxt: Seq<Felt>,
    t: int,
    res: Seq<Felt>,
)
    requires
        attrs.len() >= 2,
        cur.len() >= STORAGE_START + DIGEST_WIDTH,
        step_follows(attrs.len() as int, attrs, nonce, round, cur, nxt, t),
        res.len() == HASH_SPACE_WIDTH,
        is_round_step(attrs.len() as int, t) ==> all_zero(res),
    ensures
        ({
            let n = attrs.len() as int;
            let e = nxt.subrange(0, HASH_SPACE_WIDTH as int);
            &&& transition_holds(
                cur,
                nxt,
                is_round_step(n, t),
                is_push_step(n, t),
                is_pop_step(n, t),
                t == root_step(n),
                res,
            )
            &&& is_round_step(n, t) ==> round_gives(round, cur, t, e)
        }),
{
    let n = attrs.len() as int;
    let e = nxt.subrange(0, HASH_SPACE_WIDTH as int);
    lemma_step_kinds(n, t);
    if is_round_step(n, t) {
        let h = choose|h: Seq<Felt>|
            h.len() == HASH_SPACE_WIDTH && round_gives(round, cur, t, h) && nxt == row_after_round(
                cur,
                h,
            );
        lemma_round_row(cur, nxt, h, res);
    } else if is_push_step(n, t) {
        let p = crate::trace::pair_of_cycle(n, crate::trace::next_cycle(t));
        lemma_push_row(cur, nxt, attrs[2 * p]@, attrs[2 * p + 1]@, res);
    } else if is_pop_step(n, t) {
        lemma_pop_row(cur, nxt, res);
    } else if t == root_step(n) {
        lemma_root_row(cur, nxt, nonce, res);
    }
}

/// In every trace the capacity lanes are zero at the first row of each of the
/// `n` hash cycles.
#[verifier::spinoff_prover]
pub proof fn lemma_capacity_zero<F: Fn(&Vec<Felt>, usize) -> Vec<Felt>>(
    rows: Seq<Seq<Felt>>,
    attrs: Seq<[Felt; DIGEST_WIDTH]>,
    nonce: Seq<Felt>,
    round: F,
    c: int,
    k: int,
)
    requires
        valid_leaf_count(attrs.len() as int),
        is_trace_of(rows, attrs, nonce, round),
        0 <= c < attrs.len(),
        RATE_WIDTH <= k < STATE_WIDTH,
    ensures
        rows[c * CYCLE_LEN][k] == Felt::spec_zero(),
{
    let n = attrs.len() as int;
    assert(log2_of(n) >= 1);
    lemma_root_step_position(n);
    if c > 0 {
        let t = c * CYCLE_LEN - 1;
        vstd::arithmetic::div_mod::lemma_fundamental_div_mod_converse(
            t,
            CYCLE_LEN as int,
            c - 1,
            CYCLE_LEN - 1,
        );
        let cur = rows[t];
        let nxt = rows[t + 1];
        assert(step_follows(n, attrs, nonce, round, cur, nxt, t));
        assert(cur.len() == trace_width(n));
        assert(!is_round_step(n, t));
        assert(t <= root_step(n));
        let e = nxt;
        if is_push_step(n, t) {
            let p = crate::trace::pair_of_cycle(n, crate::trace::next_cycle(t));
            lemma_push_row(cur, nxt, attrs[2 * p]@, attrs[2 * p + 1]@, e);
        } else if is_pop_step(n, t) {
            lemma_pop_row(cur, nxt, e);
        } else {
            assert(t == root_step(n));
            lemma_root_row(cur, nxt, nonce, e);
        }
    }
}

/// The permutation round gives one result on equal states.
pub open spec fn round_is_function<F: Fn(&Vec<Felt>, usize) -> Vec<Felt>>(round: F) -> bool {
    forall|v1: Vec<Felt>, v2: Vec<Felt>, t: usize, o1: Vec<Felt>, o2: Vec<Felt>|
        v1@ == v2@ && #[trigger] call_ensures(round, (&v1, t), o1) && #[trigger] call_ensures(
            round,
            (&v2, t),
            o2,
        ) ==> o1@ == o2@
}

/// A trace is determined by the leaves, the nonce and the permutation round:
/// two traces of the same inputs are equal, row by row and cell by cell.
pub proof fn lemma_trace_deterministic<F: Fn(&Vec<Felt>, usize) -> Vec<Felt>>(
    rows1: Seq<Seq<Felt>>,
    rows2: Seq<Seq<Felt>>,
    attrs: Seq<[Felt; DIGEST_WIDTH]>,
    nonce: Seq<Felt>,
    round: F,
)
    requires
        round_is_function(round),
        is_trace_of(rows1, attrs, nonce, round),
        is_trace_of(rows2, attrs, nonce, round),
    ensures
        rows1 == rows2,
{
    let n = attrs.len() as int;
    assert forall|t: int| 0 <= t < rows1.len() implies rows1[t] == rows2[t] by {
        lemma_rows_agree(rows1, rows2, attrs, nonce, round, t);
    }
    assert(rows1 =~= rows2);
}

#[verifier::spinoff_prover]
#[verifier::rlimit(40)]
proof fn lemma_rows_agree<F: Fn(&Vec<Felt>, usize) -> Vec<Felt>>(
    rows1: Seq<Seq<Felt>>,
    rows2: Seq<Seq<Felt>>,
    attrs: Seq<[Felt; DIGEST_WIDTH]>,
    nonce: Seq<Felt>,
    round: F,
    t: int,
)
    requires
        round_is_function(round),
        is_trace_of(rows1, attrs, nonce, round),
        is_trace_of(rows2, attrs, nonce, round),
        0 <= t < rows1.len(),
    ensures
        rows1[t] == rows2[t],
    decreases t,
{
    let n = attrs.len() as int;
    if t > 0 {
        let s = t - 1;
        lemma_rows_agree(rows1, rows2, attrs, nonce, round, s);
        assert(step_follows(n, attrs, nonce, round, rows1[s], rows1[t], s));
        assert(step_follows(n, attrs, nonce, round, rows2[s], rows2[t], s));
        lemma_step_unique(attrs, nonce, round, rows1[s], rows1[t], rows2[t], s);
    }
}

/// One row follows a given row at a given step.
#[verifier::spinoff_prover]
proof fn lemma_step_unique<F: Fn(&Vec<Felt>, usize) -> Vec<Felt>>(
    attrs: Seq<[Felt; DIGEST_WIDTH]>,
    nonce: Seq<Felt>,
    round: F,
    cur: Seq<Felt>,
    nxt1: Seq<Felt>,
    nxt2: Seq<Felt>,
    t: int,
)
    requires
        round_is_function(round),
        step_follows(attrs.len() as int, attrs, nonce, round, cur, nxt1, t),
        step_follows(attrs.len() as int, attrs, nonce, round, cur, nxt2, t),
    ensures
        nxt1 == nxt2,
{
    let n = attrs.len() as int;
    if is_round_step(n, t) {
        let h1 = choose|h: Seq<Felt>|
            h.len() == HASH_SPACE_WIDTH && round_gives(round, cur, t, h) && nxt1 == row_after_round(
                cur,
                h,
            );
        let h2 = choose|h: Seq<Felt>|
            h.len() == HASH_SPACE_WIDTH && round_gives(round, cur, t, h) && nxt2 == row_after_round(
                cur,
                h,
            );
        let (v1, o1) = choose|v: Vec<Felt>, out: Vec<Felt>|
            v@ == cur.subrange(0, STATE_WIDTH as int) && call_ensures(round, (&v, t as usize), out)
                && out@ == h1;
        let (v2, o2) = choose|v: Vec<Felt>, out: Vec<Felt>|
            v@ == cur.subrange(0, STATE_WIDTH as int) && call_ensures(round, (&v, t as usize), out)
                && out@ == h2;
        assert(o1@ == o2@);
    }
}

/// For `n` leaves, while any hash cycle of the tree runs the number of
/// digests waiting in storage is at least zero and below the number of
/// storage slots of the trace, `(trace_width(n) - STORAGE_START) / DIGEST_WIDTH`.
pub proof fn lemma_storage_bound(n: int, c: int)
    requires
        valid_leaf_count(n),
        n <= usize::MAX,
        0 <= c < n - 1,
    ensures
        0 <= pending(load_kinds(n - 1), c),
        pending(load_kinds(n - 1), c) < (trace_width(n) - STORAGE_START) / DIGEST_WIDTH as int,
{
    let h = log2_of(n);
    assert(h >= 1);
    lemma_load_kinds_perfect(h);
    lemma_tree_kinds(h);
    vstd::arithmetic::div_mod::lemma_fundamental_div_mod_converse(
        trace_width(n) - STORAGE_START,
        DIGEST_WIDTH as int,
        h as int,
        0,
    );
}

// Boundary assertions
// ---------------------------------------------------------------------------

/// The assertion `a` holds on the trace `rows`.
pub open spec fn holds_on(rows: Seq<Seq<Felt>>, a: Assertion) -> bool {
    &&& a.step < rows.len()
    &&& a.column < rows[a.step as int].len()
    &&& rows[a.step as int][a.column as int] == a.value
}

/// The leaves at the disclosed indices.
pub open spec fn disclosed_of(attrs: Seq<[Felt; DIGEST_WIDTH]>, idx: Seq<usize>) -> Seq<[Felt; DIGEST_WIDTH]> {
    Seq::new(idx.len(), |j: int| attrs[idx[j] as int])
}

/// The commitment a trace computes: the rate lanes of its commitment row.
pub open spec fn commitment_of(rows: Seq<Seq<Felt>>, n: int) -> Seq<Felt> {
    rows[commitment_step(n)].subrange(0, RATE_WIDTH as int)
}

/// The hash cycle that loads leaf pair `p`, `leaf_steps(n - 1)[p]`, is a
/// cycle of the tree and starts with leaves `2p` and `2p + 1` in the two
/// digest halves of the rate.
#[verifier::spinoff_prover]
#[verifier::rlimit(60)]
pub proof fn lemma_pair_loaded<F: Fn(&Vec<Felt>, usize) -> Vec<Felt>>(
    rows: Seq<Seq<Felt>>,
    attrs: Seq<[Felt; DIGEST_WIDTH]>,
    nonce: Seq<Felt>,
    round: F,
    p: int,
    k: int,
)
    requires
        valid_leaf_count(attrs.len() as int),
        attrs.len() <= usize::MAX,
        is_trace_of(rows, attrs, nonce, round),
        0 <= p < leaf_steps(attrs.len() - 1).len(),
        0 <= k < DIGEST_WIDTH,
    ensures
        leaf_steps(attrs.len() - 1)[p] < attrs.len() - 1,
        2 * p + 1 < attrs.len(),
        rows[leaf_steps(attrs.len() - 1)[p] * CYCLE_LEN][k] == attrs[2 * p]@[k],
        rows[leaf_steps(attrs.len() - 1)[p] * CYCLE_LEN][DIGEST_WIDTH + k] == attrs[2 * p + 1]@[k],
{
    let n = attrs.len() as int;
    lemma_leaf_step_facts(n, p);
    let c = leaf_steps(n - 1)[p] as int;
    if c > 0 {
        let t = c * CYCLE_LEN - 1;
        lemma_cycle_start(c);
        lemma_root_step_position(n);
        assert(step_follows(n, attrs, nonce, round, rows[t], rows[t + 1], t));
        assert(rows[t].len() == trace_width(n));
        assert(is_push_step(n, t));
        assert(pair_of_cycle(n, next_cycle(t)) == p);
        assert(rows[t + 1] == row_after_push(rows[t], attrs[2 * p]@, attrs[2 * p + 1]@));
    }
}

/// The step before the start of cycle `c` is the last step of cycle `c - 1`.
proof fn lemma_cycle_start(c: int)
    requires
        c >= 1,
    ensures
        (c * CYCLE_LEN - 1) % (CYCLE_LEN as int) == CYCLE_LEN - 1,
        next_cycle(c * CYCLE_LEN - 1) == c,
{
    vstd::arithmetic::div_mod::lemma_fundamental_div_mod_converse(
        c * CYCLE_LEN,
        CYCLE_LEN as int,
        c,
        0,
    );
    vstd::arithmetic::div_mod::lemma_fundamental_div_mod_converse(
        c * CYCLE_LEN - 1,
        CYCLE_LEN as int,
        c - 1,
        CYCLE_LEN - 1,
    );
}

/// Leaf pair `p` is loaded by an internal-node cycle that counts `p` loading
/// cycles before it; the first pair by the first cycle.
proof fn lemma_leaf_step_facts(n: int, p: int)
    requires
        valid_leaf_count(n),
        n <= usize::MAX,
        0 <= p < leaf_steps(n - 1).len(),
    ensures
        leaf_steps(n - 1)[p] < n - 1,
        load_kinds(n - 1)[leaf_steps(n - 1)[p] as int],
        loads_before(load_kinds(n - 1), leaf_steps(n - 1)[p] as int) == p,
        2 * p + 1 < n,
        leaf_steps(n - 1)[p] == 0 ==> p == 0,
{
    let h = log2_of(n);
    let ks = load_kinds(n - 1);
    assert(h >= 1);
    lemma_load_kinds_perfect(h);
    lemma_tree_kinds(h);
    lemma_true_positions(ks);
    vstd::arithmetic::power2::lemma_pow2_unfold(h);
    let c = leaf_steps(n - 1)[p] as int;
    lemma_loads_monotone(ks, c + 1, ks.len() as int);
}

/// Leaf `x` is loaded into rate half `x % 2` at the start of the cycle that
/// loads its pair.
#[verifier::spinoff_prover]
#[verifier::rlimit(60)]
proof fn lemma_disclosed_loaded<F: Fn(&Vec<Felt>, usize) -> Vec<Felt>>(
    rows: Seq<Seq<Felt>>,
    attrs: Seq<[Felt; DIGEST_WIDTH]>,
    nonce: Seq<Felt>,
    round: F,
    x: int,
    k: int,
)
    requires
        valid_leaf_count(attrs.len() as int),
        attrs.len() <= usize::MAX / 32,
        is_trace_of(rows, attrs, nonce, round),
        0 <= x < attrs.len(),
        0 <= k < DIGEST_WIDTH,
    ensures
        ({
            let n = attrs.len() as int;
            let step = leaf_steps(n - 1)[x / 2] * CYCLE_LEN;
            let column = (x % 2) * DIGEST_WIDTH + k;
            &&& 0 <= step < rows.len()
            &&& 0 <= column < rows[step].len()
            &&& rows[step][column] == attrs[x]@[k]
        }),
{
    let n = attrs.len() as int;
    let h = log2_of(n);
    assert(h >= 1);
    let p = x / 2;
    lemma_load_kinds_perfect(h);
    lemma_tree_kinds(h);
    lemma_true_positions(load_kinds(n - 1));
    vstd::arithmetic::power2::lemma_pow2_unfold(h);
    assert(0 <= p < leaf_steps(n - 1).len());
    lemma_pair_loaded(rows, attrs, nonce, round, p, k);
    let c = leaf_steps(n - 1)[p] as int;
    assert(c * CYCLE_LEN < rows.len());
    assert(rows[c * CYCLE_LEN].len() == trace_width(n));
    if x % 2 == 0 {
        assert(x == 2 * p);
    } else {
        assert(x == 2 * p + 1);
    }
}

/// The nonce enters the second digest lanes at the start of the last cycle.
#[verifier::spinoff_prover]
#[verifier::rlimit(60)]
proof fn lemma_nonce_loaded<F: Fn(&Vec<Felt>, usize) -> Vec<Felt>>(
    rows: Seq<Seq<Felt>>,
    attrs: Seq<[Felt; DIGEST_WIDTH]>,
    nonce: Seq<Felt>,
    round: F,
    k: int,
)
    requires
        valid_leaf_count(attrs.len() as int),
        is_trace_of(rows, attrs, nonce, round),
        0 <= k < DIGEST_WIDTH,
    ensures
        rows[root_step(attrs.len() as int) + 1][DIGEST_WIDTH + k] == nonce[k],
{
    let n = attrs.len() as int;
    let t = root_step(n);
    lemma_root_step_position(n);
    lemma_step_kinds(n, t);
    lemma_step_bounds(n);
    assert(rows.len() == padded_length(n));
    assert(step_follows(n, attrs, nonce, round, rows[t], rows[t + 1], t));
    assert(rows[t].len() == trace_width(n));
    assert(rows[t + 1] == row_after_root(rows[t], nonce));
}

/// Where the `i`-th assertion points, whatever values it carries, the trace
/// holds the value the honest public inputs give it.
#[verifier::spinoff_prover]
#[verifier::rlimit(60)]
proof fn lemma_assertion_value<F: Fn(&Vec<Felt>, usize) -> Vec<Felt>>(
    rows: Seq<Seq<Felt>>,
    attrs: Seq<[Felt; DIGEST_WIDTH]>,
    nonce: Seq<Felt>,
    round: F,
    idx: Seq<usize>,
    disclosed: Seq<[Felt; DIGEST_WIDTH]>,
    comm: Seq<Felt>,
    nonce2: Seq<Felt>,
    i: int,
)
    requires
        valid_leaf_count(attrs.len() as int),
        attrs.len() <= usize::MAX / 32,
        is_trace_of(rows, attrs, nonce, round),
        indices_in_range(idx, attrs.len() as int),
        disclosed.len() == idx.len(),
        0 <= i < num_assertions(attrs.len() as int, idx.len() as int),
    ensures
        ({
            let n = attrs.len() as int;
            let a = assertion_at(n, idx, disclosed, comm, nonce2, i);
            let honest = assertion_at(n, idx, disclosed_of(attrs, idx), commitment_of(rows, n), nonce, i);
            &&& a.step == honest.step
            &&& a.column == honest.column
            &&& holds_on(rows, honest)
        }),
{
    let n = attrs.len() as int;
    let d = DIGEST_WIDTH as int;
    let dd = idx.len() * d;
    let h = log2_of(n);
    assert(h >= 1);
    lemma_root_step_position(n);
    if i < dd {
        let j = i / d;
        let k = i % d;
        vstd::arithmetic::div_mod::lemma_fundamental_div_mod(i, d);
        vstd::arithmetic::div_mod::lemma_mod_bound(i, d);
        assert(0 <= j < idx.len()) by (nonlinear_arith)
            requires
                i == d * j + k,
                0 <= k < d,
                0 <= i < idx.len() * d,
                d == 12,
        ;
        lemma_disclosed_loaded(rows, attrs, nonce, round, idx[j] as int, k);
        assert(disclosed_of(attrs, idx)[j] == attrs[idx[j] as int]);
    } else if i < dd + d {
        let k = i - dd;
        lemma_nonce_loaded(rows, attrs, nonce, round, k);
        assert(rows[root_step(n) + 1].len() == trace_width(n));
    } else if i < dd + d + RATE_WIDTH {
        assert(rows[commitment_step(n)].len() == trace_width(n));
    } else {
        let cap = (STATE_WIDTH - RATE_WIDTH) as int;
        let m = i - dd - d - RATE_WIDTH;
        let c = m / cap;
        let k = m % cap;
        vstd::arithmetic::div_mod::lemma_fundamental_div_mod(m, cap);
        vstd::arithmetic::div_mod::lemma_mod_bound(m, cap);
        assert(0 <= c < n) by (nonlinear_arith)
            requires
                m == cap * c + k,
                0 <= k < cap,
                0 <= m < n * cap,
                cap == 11,
        ;
        lemma_capacity_zero(rows, attrs, nonce, round, c, RATE_WIDTH + k);
        assert(c * CYCLE_LEN < rows.len());
        assert(rows[c * CYCLE_LEN].len() == trace_width(n));
    }
}

/// The boundary assertions of public inputs hold on the honest trace exactly
/// when those inputs are the honest ones: the disclosed leaves are the leaves
/// at their indices, the commitment is the one the trace computes, and the
/// nonce is the one it was built with. So the honest trace meets every
/// assertion, and changing any single element of a disclosed leaf, of the
/// commitment or of the nonce breaks one.
#[verifier::spinoff_prover]
#[verifier::rlimit(60)]
pub proof fn lemma_assertions_exact<F: Fn(&Vec<Felt>, usize) -> Vec<Felt>>(
    rows: Seq<Seq<Felt>>,
    attrs: Seq<[Felt; DIGEST_WIDTH]>,
    nonce: Seq<Felt>,
    round: F,
    idx: Seq<usize>,
    disclosed: Seq<[Felt; DIGEST_WIDTH]>,
    comm: Seq<Felt>,
    nonce2: Seq<Felt>,
)
    requires
        valid_leaf_count(attrs.len() as int),
        attrs.len() <= usize::MAX / 32,
        is_trace_of(rows, attrs, nonce, round),
        indices_in_range(idx, attrs.len() as int),
        disclosed.len() == idx.len(),
        comm.len() == RATE_WIDTH,
        nonce.len() == DIGEST_WIDTH,
        nonce2.len() == DIGEST_WIDTH,
    ensures
        (forall|i: int|
            0 <= i < num_assertions(attrs.len() as int, idx.len() as int) ==> holds_on(
                rows,
                #[trigger] assertion_at(attrs.len() as int, idx, disclosed, comm, nonce2, i),
            )) <==> ((forall|j: int|
            0 <= j < idx.len() ==> (#[trigger] disclosed[j])@ == attrs[idx[j] as int]@) && comm
            == commitment_of(rows, attrs.len() as int) && nonce2 == nonce),
{
    let n = attrs.len() as int;
    let d = DIGEST_WIDTH as int;
    let dd = idx.len() * d;
    let num = num_assertions(n, idx.len() as int);
    let good = (forall|j: int| 0 <= j < idx.len() ==> (#[trigger] disclosed[j])@ == attrs[idx[j] as int]@)
        && comm == commitment_of(rows, n) && nonce2 == nonce;
    if good {
        assert forall|i: int| 0 <= i < num implies holds_on(
            rows,
            #[trigger] assertion_at(n, idx, disclosed, comm, nonce2, i),
        ) by {
            let a = assertion_at(n, idx, disclosed, comm, nonce2, i);
            let honest = assertion_at(n, idx, disclosed_of(attrs, idx), commitment_of(rows, n), nonce, i);
            lemma_assertion_value(rows, attrs, nonce, round, idx, disclosed, comm, nonce2, i);
            if i < dd {
                let j = i / d;
                vstd::arithmetic::div_mod::lemma_fundamental_div_mod(i, d);
                vstd::arithmetic::div_mod::lemma_mod_bound(i, d);
                assert(0 <= j < idx.len()) by (nonlinear_arith)
                    requires
                        i == d * j + i % d,
                        0 <= i % d < d,
                        0 <= i < idx.len() * d,
                        d == 12,
                ;
                assert(disclosed[j]@ == attrs[idx[j] as int]@);
                assert(disclosed_of(attrs, idx)[j] == attrs[idx[j] as int]);
            }
            assert(a.value == honest.value);
        }
    }
    if forall|i: int|
        0 <= i < num ==> holds_on(rows, #[trigger] assertion_at(n, idx, disclosed, comm, nonce2, i)) {
        assert forall|j: int| 0 <= j < idx.len() implies (#[trigger] disclosed[j])@
            == attrs[idx[j] as int]@ by {
            assert forall|k: int| 0 <= k < d implies disclosed[j]@[k] == attrs[idx[j] as int]@[k] by {
                let i = j * d + k;
                assert(0 <= i < dd) by (nonlinear_arith)
                    requires
                        0 <= j < idx.len(),
                        0 <= k < d,
                        i == j * d + k,
                        dd == idx.len() * d,
                ;
                vstd::arithmetic::div_mod::lemma_fundamental_div_mod_converse(i, d, j, k);
                lemma_assertion_value(rows, attrs, nonce, round, idx, disclosed, comm, nonce2, i);
                assert(holds_on(rows, assertion_at(n, idx, disclosed, comm, nonce2, i)));
                assert(disclosed_of(attrs, idx)[j] == attrs[idx[j] as int]);
            }
            assert(disclosed[j]@ =~= attrs[idx[j] as int]@);
        }
        assert forall|k: int| 0 <= k < RATE_WIDTH implies comm[k] == commitment_of(rows, n)[k] by {
            let i = dd + d + k;
            lemma_assertion_value(rows, attrs, nonce, round, idx, disclosed, comm, nonce2, i);
            assert(holds_on(rows, assertion_at(n, idx, disclosed, comm, nonce2, i)));
        }
        assert(log2_of(n) >= 1);
        lemma_step_bounds(n);
        assert(rows.len() == padded_length(n));
        assert(rows[commitment_step(n)].len() == trace_width(n));
        assert(comm =~= commitment_of(rows, n));
        assert forall|k: int| 0 <= k < DIGEST_WIDTH implies nonce2[k] == nonce[k] by {
            let i = dd + k;
            lemma_assertion_value(rows, attrs, nonce, round, idx, disclosed, comm, nonce2, i);
            assert(holds_on(rows, assertion_at(n, idx, disclosed, comm, nonce2, i)));
        }
        assert(nonce2 =~= nonce);
    }
}

// Storage occupancy
// ---------------------------------------------------------------------------

/// Every storage lane from slot `p` on is zero: at most `p` digests are held.
pub open spec fn storage_clear_from(r: Seq<Felt>, p: int) -> bool {
    forall|i: int|
        STORAGE_START + p * DIGEST_WIDTH <= i < r.len() ==> #[trigger] r[i] == Felt::spec_zero()
}

proof fn lemma_slot_arith(p: int)
    ensures
        (p + 1) * DIGEST_WIDTH == p * DIGEST_WIDTH + DIGEST_WIDTH,
        (p - 1) * DIGEST_WIDTH == p * DIGEST_WIDTH - DIGEST_WIDTH,
{
    assert((p + 1) * 12 == p * 12 + 12) by (nonlinear_arith);
    assert((p - 1) * 12 == p * 12 - 12) by (nonlinear_arith);
}

/// The steps of hash cycle `c` before its shuffle step are round steps.
proof fn lemma_cycle_rounds(n: int, c: int, i: int)
    requires
        0 <= c < n,
        0 <= i < CYCLE_LEN - 1,
    ensures
        is_round_step(n, c * CYCLE_LEN + i),
        c * CYCLE_LEN + i + 1 < padded_length(n),
{
    vstd::arithmetic::div_mod::lemma_fundamental_div_mod_converse(
        c * CYCLE_LEN + i,
        CYCLE_LEN as int,
        c,
        i,
    );
    assert(c * 8 + i < 8 * n - 1) by (nonlinear_arith)
        requires
            0 <= c < n,
            0 <= i < 7,
    ;
    assert(padded_length(n) == 16 * n) by (nonlinear_arith)
        requires
            padded_length(n) == 2 * 8 * n,
    ;
}

/// Storage stays as it is through the round steps of a cycle.
#[verifier::spinoff_prover]
#[verifier::rlimit(40)]
proof fn lemma_storage_through_rounds<F: Fn(&Vec<Felt>, usize) -> Vec<Felt>>(
    rows: Seq<Seq<Felt>>,
    attrs: Seq<[Felt; DIGEST_WIDTH]>,
    nonce: Seq<Felt>,
    round: F,
    c: int,
    i: int,
    p: int,
)
    requires
        valid_leaf_count(attrs.len() as int),
        is_trace_of(rows, attrs, nonce, round),
        0 <= c < attrs.len(),
        0 <= i < CYCLE_LEN,
        p >= 0,
        storage_clear_from(rows[c * CYCLE_LEN], p),
    ensures
        storage_clear_from(rows[c * CYCLE_LEN + i], p),
    decreases i,
{
    let n = attrs.len() as int;
    if i > 0 {
        lemma_storage_through_rounds(rows, attrs, nonce, round, c, i - 1, p);
        let t = c * CYCLE_LEN + i - 1;
        lemma_cycle_rounds(n, c, i - 1);
        assert(rows.len() == padded_length(n));
        assert(step_follows(n, attrs, nonce, round, rows[t], rows[t + 1], t));
        let h = choose|h: Seq<Felt>|
            h.len() == HASH_SPACE_WIDTH && round_gives(round, rows[t], t, h) && rows[t + 1]
                == row_after_round(rows[t], h);
        assert(rows[t].len() == trace_width(n));
        assert(rows[t + 1].len() == rows[t].len());
        assert forall|j: int|
            STORAGE_START + p * DIGEST_WIDTH <= j < rows[t + 1].len() implies #[trigger] rows[t
            + 1][j] == Felt::spec_zero() by {
            assert(rows[t + 1][j] == rows[t][j]);
        }
    }
}

/// While the tree is hashed, storage holds at most the pending digests: at
/// the start of hash cycle `c`, every storage slot from `pending(c)` on is
/// empty, and `pending(c)` is below the number of slots. So a push never
/// drops a stored digest.
#[verifier::spinoff_prover]
#[verifier::rlimit(60)]
pub proof fn lemma_storage_occupancy<F: Fn(&Vec<Felt>, usize) -> Vec<Felt>>(
    rows: Seq<Seq<Felt>>,
    attrs: Seq<[Felt; DIGEST_WIDTH]>,
    nonce: Seq<Felt>,
    round: F,
    c: int,
)
    requires
        valid_leaf_count(attrs.len() as int),
        attrs.len() <= usize::MAX,
        is_trace_of(rows, attrs, nonce, round),
        0 <= c < attrs.len() - 1,
    ensures
        0 <= pending(load_kinds(attrs.len() - 1), c) < log2_of(attrs.len() as int),
        storage_clear_from(rows[c * CYCLE_LEN], pending(load_kinds(attrs.len() - 1), c)),
    decreases c,
{
    let n = attrs.len() as int;
    let ks = load_kinds(n - 1);
    let h = log2_of(n);
    assert(h >= 1);
    lemma_load_kinds_perfect(h);
    lemma_tree_kinds(h);
    vstd::arithmetic::power2::lemma_pow2_unfold(h);
    assert(0 <= pending(ks, c) <= h - 1);
    if c == 0 {
        assert(rows[0] == crate::layout::first_row(attrs[0]@, attrs[1]@, trace_width(n) as nat));
        assert(storage_clear_from(rows[0], 0));
    } else {
        let b = c - 1;
        lemma_storage_occupancy(rows, attrs, nonce, round, b);
        let pb = pending(ks, b);
        lemma_storage_through_rounds(rows, attrs, nonce, round, b, CYCLE_LEN - 1, pb);
        let t = b * CYCLE_LEN + CYCLE_LEN - 1;
        assert(t + 1 == c * CYCLE_LEN) by (nonlinear_arith)
            requires
                t == b * 8 + 7,
                b == c - 1,
        ;
        lemma_cycle_start(c);
        lemma_root_step_position(n);
        assert(t < root_step(n)) by (nonlinear_arith)
            requires
                t == c * 8 - 1,
                c < n - 1,
                root_step(n) == 8 * (n - 1) - 1,
        ;
        lemma_cycle_rounds(n, b, 0);
        assert(step_follows(n, attrs, nonce, round, rows[t], rows[t + 1], t));
        assert(rows[t].len() == trace_width(n));
        assert(rows[t + 1].len() == trace_width(n));
        assert(0 <= pending(ks, c) <= h - 1);
        lemma_slot_arith(pb);
        let cur = rows[t];
        let nxt = rows[t + 1];
        assert(trace_width(n) == STORAGE_START + DIGEST_WIDTH * h);
        if ks[c] {
            assert(is_push_step(n, t));
            let p = pair_of_cycle(n, next_cycle(t));
            assert(nxt == row_after_push(cur, attrs[2 * p]@, attrs[2 * p + 1]@));
            assert(pending(ks, c) == pb + 1);
            assert forall|j: int|
                STORAGE_START + (pb + 1) * DIGEST_WIDTH <= j < nxt.len() implies #[trigger] nxt[j]
                == Felt::spec_zero() by {
                assert(nxt[j] == cur[j - DIGEST_WIDTH]);
            }
        } else {
            assert(is_pop_step(n, t));
            assert(nxt == row_after_pop(cur));
            assert(pending(ks, c) == pb - 1);
            assert forall|j: int|
                STORAGE_START + (pb - 1) * DIGEST_WIDTH <= j < nxt.len() implies #[trigger] nxt[j]
                == Felt::spec_zero() by {
                if j < nxt.len() - DIGEST_WIDTH {
                    assert(nxt[j] == cur[j + DIGEST_WIDTH]);
                }
            }
        }
    }
}

// The Merkle structure of a trace
// ---------------------------------------------------------------------------

/// The storage region of a row.
pub open spec fn storage_of(r: Seq<Felt>) -> Seq<Felt> {
    r.subrange(STORAGE_START as int, r.len() as int)
}

/// The digest hash cycle `c` computes: the first digest lanes of its last row.
pub open spec fn cycle_result(rows: Seq<Seq<Felt>>, c: int) -> Seq<Felt> {
    rows[c * CYCLE_LEN + CYCLE_LEN - 1].subrange(0, DIGEST_WIDTH as int)
}

/// The left input of hash cycle `c`: the first digest lanes of its first row.
pub open spec fn cycle_left(rows: Seq<Seq<Felt>>, c: int) -> Seq<Felt> {
    rows[c * CYCLE_LEN].subrange(0, DIGEST_WIDTH as int)
}

/// The right input of hash cycle `c`: the second digest lanes of its first row.
pub open spec fn cycle_right(rows: Seq<Seq<Felt>>, c: int) -> Seq<Felt> {
    rows[c * CYCLE_LEN].subrange(DIGEST_WIDTH as int, 2 * DIGEST_WIDTH as int)
}

/// The hash cycles `[o, o + 2^g - 1)` hash the perfect subtree of `g` levels
/// over the leaves `[lo, lo + 2^g)`: a one-level subtree's cycle starts with
/// its two leaves; a larger one is its left subtree's cycles, its right
/// subtree's, then a cycle whose inputs are the results of the two subtrees'
/// last cycles, left then right.
pub open spec fn merkle_shape(rows: Seq<Seq<Felt>>, attrs: Seq<[Felt; DIGEST_WIDTH]>, o: int, g: nat, lo: int) -> bool
    decreases g,
{
    if g <= 1 {
        cycle_left(rows, o) == attrs[lo]@ && cycle_right(rows, o) == attrs[lo + 1]@
    } else {
        let l = pow2((g - 1) as nat) - 1;
        let r = o + 2 * l;
        &&& merkle_shape(rows, attrs, o, (g - 1) as nat, lo)
        &&& merkle_shape(rows, attrs, o + l, (g - 1) as nat, lo + pow2((g - 1) as nat))
        &&& cycle_left(rows, r) == cycle_result(rows, o + l - 1)
        &&& cycle_right(rows, r) == cycle_result(rows, r - 1)
    }
}

proof fn lemma_loads_shift(ks: Seq<bool>, o: int, m: int, j: int)
    requires
        0 <= o,
        o + m <= ks.len(),
        0 <= j <= m,
    ensures
        loads_before(ks, o + j) == loads_before(ks, o) + loads_before(ks.subrange(o, o + m), j),
    decreases j,
{
    if j > 0 {
        lemma_loads_shift(ks, o, m, j - 1);
    }
}

proof fn lemma_pending_shift(ks: Seq<bool>, o: int, m: int, j: int)
    requires
        0 <= o,
        o + m <= ks.len(),
        0 <= j < m,
    ensures
        pending(ks, o + j) == pending(ks, o) + pending(ks.subrange(o, o + m), j),
    decreases j,
{
    if j > 0 {
        lemma_pending_shift(ks, o, m, j - 1);
    }
}

/// Storage is unchanged through the round steps of a cycle.
#[verifier::spinoff_prover]
#[verifier::rlimit(40)]
proof fn lemma_storage_kept<F: Fn(&Vec<Felt>, usize) -> Vec<Felt>>(
    rows: Seq<Seq<Felt>>,
    attrs: Seq<[Felt; DIGEST_WIDTH]>,
    nonce: Seq<Felt>,
    round: F,
    c: int,
    i: int,
)
    requires
        valid_leaf_count(attrs.len() as int),
        is_trace_of(rows, attrs, nonce, round),
        0 <= c < attrs.len(),
        0 <= i < CYCLE_LEN,
    ensures
        storage_of(rows[c * CYCLE_LEN + i]) == storage_of(rows[c * CYCLE_LEN]),
    decreases i,
{
    let n = attrs.len() as int;
    if i > 0 {
        lemma_storage_kept(rows, attrs, nonce, round, c, i - 1);
        let t = c * CYCLE_LEN + i - 1;
        lemma_cycle_rounds(n, c, i - 1);
        assert(rows.len() == padded_length(n));
        assert(step_follows(n, attrs, nonce, round, rows[t], rows[t + 1], t));
        let h = choose|h: Seq<Felt>|
            h.len() == HASH_SPACE_WIDTH && round_gives(round, rows[t], t, h) && rows[t + 1]
                == row_after_round(rows[t], h);
        assert(rows[t].len() == trace_width(n));
        assert(storage_of(rows[t + 1]) =~= storage_of(rows[t]));
    }
}

/// A cycle that loads leaves starts with the pair its count of earlier
/// loading cycles names.
#[verifier::spinoff_prover]
#[verifier::rlimit(100)]
proof fn lemma_load_cycle_rate<F: Fn(&Vec<Felt>, usize) -> Vec<Felt>>(
    rows: Seq<Seq<Felt>>,
    attrs: Seq<[Felt; DIGEST_WIDTH]>,
    nonce: Seq<Felt>,
    round: F,
    c: int,
)
    requires
        valid_leaf_count(attrs.len() as int),
        attrs.len() <= usize::MAX,
        is_trace_of(rows, attrs, nonce, round),
        0 <= c < attrs.len() - 1,
        load_kinds(attrs.len() - 1)[c],
    ensures
        ({
            let q = loads_before(load_kinds(attrs.len() - 1), c);
            &&& 0 <= q
            &&& 2 * q + 1 < attrs.len()
            &&& cycle_left(rows, c) == attrs[2 * q]@
            &&& cycle_right(rows, c) == attrs[2 * q + 1]@
        }),
{
    let n = attrs.len() as int;
    let ks = load_kinds(n - 1);
    lemma_load_count(n, c);
    let q = loads_before(ks, c);
    lemma_load_cycle_index(n, c);
    let r = rows[c * CYCLE_LEN];
    let left = attrs[2 * q]@;
    let right = attrs[2 * q + 1]@;
    assert forall|k: int| 0 <= k < DIGEST_WIDTH implies #[trigger] r[k] == left[k] && r[DIGEST_WIDTH
        + k] == right[k] by {
        lemma_pair_loaded(rows, attrs, nonce, round, q, k);
    }
    lemma_rate_halves(r, left, right);
}

proof fn lemma_rate_halves(r: Seq<Felt>, left: Seq<Felt>, right: Seq<Felt>)
    requires
        r.len() >= 2 * DIGEST_WIDTH,
        left.len() == DIGEST_WIDTH,
        right.len() == DIGEST_WIDTH,
        forall|k: int| 0 <= k < DIGEST_WIDTH ==> #[trigger] r[k] == left[k] && r[DIGEST_WIDTH + k] == right[k],
    ensures
        r.subrange(0, DIGEST_WIDTH as int) == left,
        r.subrange(DIGEST_WIDTH as int, 2 * DIGEST_WIDTH as int) == right,
{
    assert(r.subrange(0, DIGEST_WIDTH as int) =~= left);
    assert forall|k: int| 0 <= k < DIGEST_WIDTH implies #[trigger] r.subrange(
        DIGEST_WIDTH as int,
        2 * DIGEST_WIDTH as int,
    )[k] == right[k] by {
        assert(r[k] == left[k]);
    }
    assert(r.subrange(DIGEST_WIDTH as int, 2 * DIGEST_WIDTH as int) =~= right);
}

/// A loading cycle is listed among the leaf steps at its count of earlier
/// loading cycles.
proof fn lemma_load_cycle_index(n: int, c: int)
    requires
        valid_leaf_count(n),
        n <= usize::MAX,
        0 <= c < n - 1,
        load_kinds(n - 1)[c],
    ensures
        0 <= loads_before(load_kinds(n - 1), c) < leaf_steps(n - 1).len(),
        leaf_steps(n - 1)[loads_before(load_kinds(n - 1), c)] == c,
{
    let ks = load_kinds(n - 1);
    let h = log2_of(n);
    assert(h >= 1);
    lemma_load_kinds_perfect(h);
    lemma_tree_kinds(h);
    lemma_loads_monotone(ks, 0, c);
    crate::schedule::lemma_true_positions_member(ks, c);
}

/// Before a loading cycle of the tree fewer loading cycles come than there
/// are leaf pairs; before the first cycle, none.
proof fn lemma_load_count(n: int, c: int)
    requires
        valid_leaf_count(n),
        n <= usize::MAX,
        0 <= c < n - 1,
        load_kinds(n - 1)[c],
    ensures
        0 <= loads_before(load_kinds(n - 1), c),
        2 * loads_before(load_kinds(n - 1), c) + 1 < n,
        c == 0 ==> loads_before(load_kinds(n - 1), c) == 0,
{
    let ks = load_kinds(n - 1);
    let h = log2_of(n);
    assert(h >= 1);
    lemma_load_kinds_perfect(h);
    lemma_tree_kinds(h);
    vstd::arithmetic::power2::lemma_pow2_unfold(h);
    lemma_loads_monotone(ks, c + 1, ks.len() as int);
    lemma_loads_monotone(ks, 0, c);
}

/// Pushing the result `x1` of a left subtree, working through a right
/// subtree that leaves storage as it found it, then popping, restores the
/// storage the left subtree started from, with the two results as inputs.
proof fn lemma_push_pop_storage(
    s0: Seq<Felt>,
    x1: Seq<Felt>,
    x2: Seq<Felt>,
    x3: Seq<Felt>,
    x4: Seq<Felt>,
    a: Seq<Felt>,
    b: Seq<Felt>,
    p: int,
)
    requires
        s0.len() == x1.len() == x3.len(),
        s0.len() >= STORAGE_START + DIGEST_WIDTH,
        0 <= p,
        STORAGE_START + (p + 1) * DIGEST_WIDTH <= s0.len() - DIGEST_WIDTH,
        storage_clear_from(s0, p),
        storage_of(x1) == storage_of(s0),
        x2 == row_after_push(x1, a, b),
        storage_of(x3) == storage_of(x2),
        x4 == row_after_pop(x3),
    ensures
        storage_clear_from(x2, p + 1),
        storage_of(x4) == storage_of(s0),
        x4.subrange(0, DIGEST_WIDTH as int) == x1.subrange(0, DIGEST_WIDTH as int),
        x4.subrange(DIGEST_WIDTH as int, 2 * DIGEST_WIDTH as int) == x3.subrange(
            0,
            DIGEST_WIDTH as int,
        ),
{
    let w = s0.len() as int;
    let st = STORAGE_START as int;
    let d = DIGEST_WIDTH as int;
    lemma_slot_arith(p);
    assert forall|i: int| st <= i < w implies #[trigger] x1[i] == s0[i] by {
        assert(storage_of(x1)[i - st] == x1[i]);
        assert(storage_of(s0)[i - st] == s0[i]);
        assert(storage_of(x1)[i - st] == storage_of(s0)[i - st]);
    }
    assert forall|i: int| st <= i < w implies #[trigger] x3[i] == x2[i] by {
        assert(x2.len() == w);
        assert(storage_of(x3)[i - st] == x3[i]);
        assert(storage_of(x2)[i - st] == x2[i]);
        assert(storage_of(x3)[i - st] == storage_of(x2)[i - st]);
    }
    assert forall|i: int| st + (p + 1) * d <= i < w implies #[trigger] x2[i] == Felt::spec_zero() by {
        assert(x2[i] == x1[i - d]);
    }
    assert forall|i: int| st <= i < w implies #[trigger] x4[i] == s0[i] by {
        if i < w - d {
            assert(x4[i] == x3[i + d]);
            assert(x3[i + d] == x2[i + d]);
            assert(x2[i + d] == x1[i]);
        } else {
            assert(s0[i] == Felt::spec_zero());
        }
    }
    assert(storage_of(x4) =~= storage_of(s0));
    assert forall|k: int| 0 <= k < d implies #[trigger] x4[k] == x1[k] by {
        assert(x4[k] == x3[st + k]);
        assert(x3[st + k] == x2[st + k]);
    }
    assert(x4.subrange(0, d) =~= x1.subrange(0, d));
    assert(x4.subrange(d, 2 * d) =~= x3.subrange(0, d));
}

/// The shuffle step into a tree cycle `c` after the first pushes and loads
/// leaves when `c` loads leaves, and pops otherwise.
#[verifier::spinoff_prover]
#[verifier::rlimit(60)]
proof fn lemma_shuffle_into<F: Fn(&Vec<Felt>, usize) -> Vec<Felt>>(
    rows: Seq<Seq<Felt>>,
    attrs: Seq<[Felt; DIGEST_WIDTH]>,
    nonce: Seq<Felt>,
    round: F,
    c: int,
)
    requires
        valid_leaf_count(attrs.len() as int),
        is_trace_of(rows, attrs, nonce, round),
        1 <= c < attrs.len() - 1,
    ensures
        ({
            let n = attrs.len() as int;
            let ks = load_kinds(n - 1);
            let t = (c - 1) * CYCLE_LEN + CYCLE_LEN - 1;
            let q = loads_before(ks, c);
            &&& t + 1 == c * CYCLE_LEN
            &&& c * CYCLE_LEN < rows.len()
            &&& rows[t].len() == trace_width(n)
            &&& rows[t + 1].len() == trace_width(n)
            &&& ks[c] ==> rows[t + 1] == row_after_push(rows[t], attrs[2 * q]@, attrs[2 * q + 1]@)
            &&& !ks[c] ==> rows[t + 1] == row_after_pop(rows[t])
        }),
{
    let n = attrs.len() as int;
    let t = (c - 1) * CYCLE_LEN + CYCLE_LEN - 1;
    assert(t + 1 == c * CYCLE_LEN) by (nonlinear_arith)
        requires
            t == (c - 1) * 8 + 7,
    ;
    lemma_cycle_start(c);
    lemma_root_step_position(n);
    lemma_step_bounds(n);
    assert(t < root_step(n)) by (nonlinear_arith)
        requires
            t == c * 8 - 1,
            c < n - 1,
            root_step(n) == 8 * (n - 1) - 1,
    ;
    assert(rows.len() == padded_length(n));
    assert(step_follows(n, attrs, nonce, round, rows[t], rows[t + 1], t));
    assert(rows[t].len() == trace_width(n));
    assert(rows[t + 1].len() == trace_width(n));
}

/// How the load pattern of a perfect subtree of `g >= 2` levels at cycle `o`
/// splits into its two subtrees and its root cycle.
#[verifier::spinoff_prover]
#[verifier::rlimit(40)]
proof fn lemma_subtree_schedule(n: int, o: int, g: nat)
    requires
        g >= 2,
        0 <= o,
        o + pow2(g) - 1 <= n - 1,
        load_kinds(n - 1).len() == n - 1,
        load_kinds(n - 1).subrange(o, o + pow2(g) - 1) == tree_kinds(g),
    ensures
        ({
            let ks = load_kinds(n - 1);
            let l = pow2((g - 1) as nat) - 1;
            &&& pow2(g) - 1 == 2 * l + 1
            &&& l >= 1
            &&& pow2((g - 1) as nat) == 2 * pow2((g - 2) as nat)
            &&& ks.subrange(o, o + l) == tree_kinds((g - 1) as nat)
            &&& ks.subrange(o + l, o + l + pow2((g - 1) as nat) - 1) == tree_kinds((g - 1) as nat)
            &&& ks[o + l]
            &&& !ks[o + 2 * l]
            &&& loads_before(ks, o + l) == loads_before(ks, o) + pow2((g - 2) as nat)
            &&& pending(ks, o + l) == pending(ks, o + l - 1) + 1
            &&& pending(ks, o + 2 * l) == pending(ks, o + 2 * l - 1) - 1
        }),
{
    let ks = load_kinds(n - 1);
    let a = tree_kinds((g - 1) as nat);
    let tg = tree_kinds(g);
    let l = pow2((g - 1) as nat) - 1;
    vstd::arithmetic::power2::lemma_pow2_unfold(g);
    vstd::arithmetic::power2::lemma_pow2_unfold((g - 1) as nat);
    vstd::arithmetic::power2::lemma_pow2_pos((g - 2) as nat);
    lemma_tree_kinds((g - 1) as nat);
    assert(tg == (a + a) + seq![false]);
    assert forall|j: int| 0 <= j < pow2(g) - 1 implies #[trigger] ks[o + j] == tg[j] by {
        assert(ks.subrange(o, o + pow2(g) - 1)[j] == ks[o + j]);
    }
    assert(ks.subrange(o, o + l) =~= a) by {
        assert forall|j: int| 0 <= j < l implies #[trigger] ks.subrange(o, o + l)[j] == a[j] by {
            assert(ks[o + j] == tg[j]);
        }
    }
    assert(o + l + pow2((g - 1) as nat) - 1 == o + 2 * l);
    let right = ks.subrange(o + l, o + 2 * l);
    assert forall|j: int| 0 <= j < l implies #[trigger] right[j] == a[j] by {
        assert(right[j] == ks[o + (l + j)]);
        assert(ks[o + (l + j)] == tg[l + j]);
        assert(tg[l + j] == (a + a)[l + j]);
    }
    assert(right =~= a);
    assert(ks[o + l] == tg[l]);
    assert(ks[o + 2 * l] == tg[2 * l]);
    lemma_loads_shift(ks, o, pow2(g) - 1, l);
    lemma_loads_prefix(a + a, seq![false], l);
    lemma_loads_prefix(a, a, l);
}

/// A push onto storage clear from slot `p` leaves it clear from slot `p + 1`.
proof fn lemma_push_storage_clear(
    s0: Seq<Felt>,
    x1: Seq<Felt>,
    x2: Seq<Felt>,
    a: Seq<Felt>,
    b: Seq<Felt>,
    p: int,
)
    requires
        s0.len() == x1.len(),
        s0.len() >= STORAGE_START + DIGEST_WIDTH,
        0 <= p,
        storage_clear_from(s0, p),
        storage_of(x1) == storage_of(s0),
        x2 == row_after_push(x1, a, b),
    ensures
        storage_clear_from(x2, p + 1),
{
    let w = s0.len() as int;
    let st = STORAGE_START as int;
    let d = DIGEST_WIDTH as int;
    lemma_slot_arith(p);
    assert forall|i: int| st + (p + 1) * d <= i < w implies #[trigger] x2[i] == Felt::spec_zero() by {
        assert(x2[i] == x1[i - d]);
        assert(storage_of(x1)[i - d - st] == x1[i - d]);
        assert(storage_of(s0)[i - d - st] == s0[i - d]);
    }
}

/// A perfect subtree of `g` levels whose cycles start at `o`, entered with
/// `p` digests pending and storage clear beyond them, is hashed as
/// `merkle_shape` says, its root cycle ends with the storage it found and
/// the same count pending.
#[verifier::spinoff_prover]
#[verifier::rlimit(100)]
proof fn lemma_subtree<F: Fn(&Vec<Felt>, usize) -> Vec<Felt>>(
    rows: Seq<Seq<Felt>>,
    attrs: Seq<[Felt; DIGEST_WIDTH]>,
    nonce: Seq<Felt>,
    round: F,
    o: int,
    g: nat,
    lo: int,
    p: int,
)
    requires
        valid_leaf_count(attrs.len() as int),
        attrs.len() <= usize::MAX,
        is_trace_of(rows, attrs, nonce, round),
        g >= 1,
        0 <= o,
        o + pow2(g) - 1 <= attrs.len() - 1,
        load_kinds(attrs.len() - 1).subrange(o, o + pow2(g) - 1) == tree_kinds(g),
        lo == 2 * loads_before(load_kinds(attrs.len() - 1), o),
        p == pending(load_kinds(attrs.len() - 1), o),
        0 <= p,
        p + g <= log2_of(attrs.len() as int),
        storage_clear_from(rows[o * CYCLE_LEN], p),
    ensures
        merkle_shape(rows, attrs, o, g, lo),
        storage_of(rows[(o + pow2(g) - 2) * CYCLE_LEN + CYCLE_LEN - 1]) == storage_of(
            rows[o * CYCLE_LEN],
        ),
        pending(load_kinds(attrs.len() - 1), o + pow2(g) - 2) == p,
    decreases g,
{
    let n = attrs.len() as int;
    let ks = load_kinds(n - 1);
    let hh = log2_of(n);
    assert(hh >= 1);
    lemma_load_kinds_perfect(hh);
    lemma_tree_kinds(hh);
    vstd::arithmetic::power2::lemma_pow2_unfold(hh);
    lemma_tree_kinds(g);
    if g == 1 {
        vstd::arithmetic::power2::lemma2_to64();
        assert(ks.subrange(o, o + 1)[0] == ks[o]);
        assert(ks[o]);
        lemma_load_cycle_rate(rows, attrs, nonce, round, o);
        lemma_storage_kept(rows, attrs, nonce, round, o, CYCLE_LEN - 1);
        assert(o + pow2(g) - 2 == o);
    } else {
        let l = pow2((g - 1) as nat) - 1;
        let r = o + 2 * l;
        lemma_subtree_schedule(n, o, g);
        // left subtree
        lemma_subtree(rows, attrs, nonce, round, o, (g - 1) as nat, lo, p);
        // push of its result, then the right subtree
        lemma_shuffle_into(rows, attrs, nonce, round, o + l);
        let e1 = (o + l - 1) * CYCLE_LEN + CYCLE_LEN - 1;
        let q1 = loads_before(ks, o + l);
        let x1 = rows[e1];
        let x2 = rows[(o + l) * CYCLE_LEN];
        lemma_shuffle_into(rows, attrs, nonce, round, r);
        let e2 = (r - 1) * CYCLE_LEN + CYCLE_LEN - 1;
        let x3 = rows[e2];
        let x4 = rows[r * CYCLE_LEN];
        assert(x2 == row_after_push(x1, attrs[2 * q1]@, attrs[2 * q1 + 1]@));
        assert(x4 == row_after_pop(x3));
        lemma_slot_arith(p);
        assert(trace_width(n) == STORAGE_START + DIGEST_WIDTH * hh);
        assert(STORAGE_START + (p + 1) * DIGEST_WIDTH <= trace_width(n) - DIGEST_WIDTH) by (nonlinear_arith)
            requires
                p + g <= hh,
                g >= 2,
                trace_width(n) == 105 + 12 * hh,
        ;
        assert(rows[o * CYCLE_LEN].len() == trace_width(n));
        assert(storage_of(x1) == storage_of(rows[o * CYCLE_LEN]));
        // the right subtree starts with its pending count one higher
        lemma_push_storage_clear(rows[o * CYCLE_LEN], x1, x2, attrs[2 * q1]@, attrs[2 * q1 + 1]@, p);
        lemma_subtree(
            rows,
            attrs,
            nonce,
            round,
            o + l,
            (g - 1) as nat,
            lo + pow2((g - 1) as nat),
            p + 1,
        );
        assert(o + l + pow2((g - 1) as nat) - 2 == r - 1);
        assert(storage_of(x3) == storage_of(x2));
        lemma_push_pop_storage(
            rows[o * CYCLE_LEN],
            x1,
            x2,
            x3,
            x4,
            attrs[2 * q1]@,
            attrs[2 * q1 + 1]@,
            p,
        );
        // the root cycle's rounds keep storage
        lemma_storage_kept(rows, attrs, nonce, round, r, CYCLE_LEN - 1);
        assert(o + pow2(g) - 2 == r);
        assert(cycle_left(rows, r) == cycle_result(rows, o + l - 1));
        assert(cycle_right(rows, r) == cycle_result(rows, r - 1));
    }
}

/// Every trace hashes the Merkle tree of its leaves: its first `n - 1` hash
/// cycles hash the perfect tree over all `n` leaves as `merkle_shape` says,
/// and the last cycle starts with the tree's root, the result of cycle
/// `n - 2`, beside the nonce; the commitment is what that cycle's rounds give.
#[verifier::spinoff_prover]
#[verifier::rlimit(60)]
pub proof fn lemma_trace_hashes_tree<F: Fn(&Vec<Felt>, usize) -> Vec<Felt>>(
    rows: Seq<Seq<Felt>>,
    attrs: Seq<[Felt; DIGEST_WIDTH]>,
    nonce: Seq<Felt>,
    round: F,
)
    requires
        valid_leaf_count(attrs.len() as int),
        attrs.len() <= usize::MAX,
        nonce.len() == DIGEST_WIDTH,
        is_trace_of(rows, attrs, nonce, round),
    ensures
        merkle_shape(rows, attrs, 0, log2_of(attrs.len() as int), 0),
        cycle_left(rows, attrs.len() - 1) == cycle_result(rows, attrs.len() - 2),
        cycle_right(rows, attrs.len() - 1) == nonce,
{
    lemma_whole_tree(rows, attrs, nonce, round);
    lemma_root_then_nonce(rows, attrs, nonce, round);
}

#[verifier::spinoff_prover]
#[verifier::rlimit(60)]
proof fn lemma_whole_tree<F: Fn(&Vec<Felt>, usize) -> Vec<Felt>>(
    rows: Seq<Seq<Felt>>,
    attrs: Seq<[Felt; DIGEST_WIDTH]>,
    nonce: Seq<Felt>,
    round: F,
)
    requires
        valid_leaf_count(attrs.len() as int),
        attrs.len() <= usize::MAX,
        is_trace_of(rows, attrs, nonce, round),
    ensures
        merkle_shape(rows, attrs, 0, log2_of(attrs.len() as int), 0),
{
    let n = attrs.len() as int;
    let ks = load_kinds(n - 1);
    let hh = log2_of(n);
    assert(hh >= 1);
    lemma_load_kinds_perfect(hh);
    lemma_tree_kinds(hh);
    assert(ks.subrange(0, pow2(hh) - 1) =~= ks);
    lemma_step_bounds(n);
    assert(rows.len() == padded_length(n));
    assert(rows[0].len() == trace_width(n));
    assert(storage_clear_from(rows[0], 0));
    lemma_subtree(rows, attrs, nonce, round, 0, hh, 0, 0);
}

#[verifier::spinoff_prover]
#[verifier::rlimit(60)]
proof fn lemma_root_then_nonce<F: Fn(&Vec<Felt>, usize) -> Vec<Felt>>(
    rows: Seq<Seq<Felt>>,
    attrs: Seq<[Felt; DIGEST_WIDTH]>,
    nonce: Seq<Felt>,
    round: F,
)
    requires
        valid_leaf_count(attrs.len() as int),
        nonce.len() == DIGEST_WIDTH,
        is_trace_of(rows, attrs, nonce, round),
    ensures
        cycle_left(rows, attrs.len() - 1) == cycle_result(rows, attrs.len() - 2),
        cycle_right(rows, attrs.len() - 1) == nonce,
{
    let n = attrs.len() as int;
    let t = root_step(n);
    assert(log2_of(n) >= 1);
    lemma_step_bounds(n);
    lemma_root_step_position(n);
    lemma_step_kinds(n, t);
    assert(rows.len() == padded_length(n));
    assert(step_follows(n, attrs, nonce, round, rows[t], rows[t + 1], t));
    assert(rows[t].len() == trace_width(n));
    assert(rows[t + 1] == row_after_root(rows[t], nonce));
    assert(t + 1 == (n - 1) * CYCLE_LEN);
    assert(t == (n - 2) * CYCLE_LEN + CYCLE_LEN - 1);
    assert(cycle_left(rows, n - 1) =~= cycle_result(rows, n - 2));
    assert(cycle_right(rows, n - 1) =~= nonce);
}

// The round and its one-round check
// ---------------------------------------------------------------------------

/// `round_check` agrees with `round` under the round constants `table` (one
/// row per cycle step): on every result the round gives at step `t`, the
/// three chained links of that step, checked under the step's constants,
/// give vanishing residuals.
pub open spec fn check_agrees<
    F: Fn(&Vec<Felt>, usize) -> Vec<Felt>,
    R: Fn(&Vec<Felt>, &Vec<Felt>, &Vec<Felt>) -> Vec<Felt>,
>(round: F, round_check: R, table: Seq<Seq<Felt>>) -> bool {
    forall|v: Vec<Felt>, t: usize, h: Vec<Felt>, res: Seq<Felt>|
        #![trigger call_ensures(round, (&v, t), h), hash_residuals(round_check, v@, h@, table[t as int % (CYCLE_LEN as int)], res)]
        call_ensures(round, (&v, t), h) && hash_residuals(
            round_check,
            v@,
            h@,
            table[t as int % (CYCLE_LEN as int)],
            res,
        ) ==> all_zero(res)
}

/// With a one-round check that agrees with the trace's round, every step of
/// a trace meets the constraint system: whatever residuals the check gives on
/// two adjacent rows under the step's round constants, every constraint
/// value vanishes.
#[verifier::spinoff_prover]
#[verifier::rlimit(60)]
pub proof fn lemma_trace_meets_constraints<
    F: Fn(&Vec<Felt>, usize) -> Vec<Felt>,
    R: Fn(&Vec<Felt>, &Vec<Felt>, &Vec<Felt>) -> Vec<Felt>,
>(
    rows: Seq<Seq<Felt>>,
    attrs: Seq<[Felt; DIGEST_WIDTH]>,
    nonce: Seq<Felt>,
    round: F,
    round_check: R,
    table: Seq<Seq<Felt>>,
    t: int,
    res: Seq<Felt>,
)
    requires
        valid_leaf_count(attrs.len() as int),
        attrs.len() <= usize::MAX / 32,
        is_trace_of(rows, attrs, nonce, round),
        check_agrees(round, round_check, table),
        0 <= t < rows.len() - 1,
        hash_residuals(round_check, rows[t], rows[t + 1], table[t % (CYCLE_LEN as int)], res),
    ensures
        all_zero(
            constraint_values(
                rows[t],
                rows[t + 1],
                periodic_values_at(attrs.len() as int, t),
                res,
            ),
        ),
{
    let n = attrs.len() as int;
    let cur = rows[t];
    let nxt = rows[t + 1];
    let e = nxt.subrange(0, HASH_SPACE_WIDTH as int);
    assert(cur.len() == trace_width(n) && nxt.len() == trace_width(n));
    assert(log2_of(n) >= 1);
    if is_round_step(n, t) {
        assert(step_follows(n, attrs, nonce, round, cur, nxt, t));
        lemma_residuals_vanish(attrs, nonce, round, round_check, table, cur, nxt, t, res);
    }
    lemma_trace_satisfies_transitions(rows, attrs, nonce, round, t, res);
}

/// On a round step, residuals of a check that agrees with the round vanish.
#[verifier::spinoff_prover]
#[verifier::rlimit(60)]
proof fn lemma_residuals_vanish<
    F: Fn(&Vec<Felt>, usize) -> Vec<Felt>,
    R: Fn(&Vec<Felt>, &Vec<Felt>, &Vec<Felt>) -> Vec<Felt>,
>(
    attrs: Seq<[Felt; DIGEST_WIDTH]>,
    nonce: Seq<Felt>,
    round: F,
    round_check: R,
    table: Seq<Seq<Felt>>,
    cur: Seq<Felt>,
    nxt: Seq<Felt>,
    t: int,
    res: Seq<Felt>,
)
    requires
        attrs.len() >= 2,
        attrs.len() <= usize::MAX / 32,
        cur.len() >= STORAGE_START + DIGEST_WIDTH,
        nxt.len() == cur.len(),
        step_follows(attrs.len() as int, attrs, nonce, round, cur, nxt, t),
        is_round_step(attrs.len() as int, t),
        check_agrees(round, round_check, table),
        hash_residuals(round_check, cur, nxt, table[t % (CYCLE_LEN as int)], res),
    ensures
        all_zero(res),
{
    let e = nxt.subrange(0, HASH_SPACE_WIDTH as int);
    lemma_round_result(attrs, nonce, round, cur, nxt, t);
    let (v, out) = choose|v: Vec<Felt>, out: Vec<Felt>|
        v@ == cur.subrange(0, STATE_WIDTH as int) && call_ensures(round, (&v, t as usize), out)
            && out@ == e;
    assert(copy_of(v@, 0) =~= copy_of(cur, 0));
    assert(copy_of(out@, 0) =~= copy_of(nxt, 0));
    assert(copy_of(out@, 1) =~= copy_of(nxt, 1));
    assert(copy_of(out@, 2) =~= copy_of(nxt, 2));
    assert(0 <= t < 8 * attrs.len());
    assert((t as usize) as int == t);
    assert(hash_residuals(round_check, v@, out@, table[(t as usize) as int % (CYCLE_LEN as int)], res));
}

/// On a round step the next hash space is a result the round gives.
#[verifier::spinoff_prover]
proof fn lemma_round_result<F: Fn(&Vec<Felt>, usize) -> Vec<Felt>>(
    attrs: Seq<[Felt; DIGEST_WIDTH]>,
    nonce: Seq<Felt>,
    round: F,
    cur: Seq<Felt>,
    nxt: Seq<Felt>,
    t: int,
)
    requires
        attrs.len() >= 2,
        cur.len() >= STORAGE_START + DIGEST_WIDTH,
        step_follows(attrs.len() as int, attrs, nonce, round, cur, nxt, t),
        is_round_step(attrs.len() as int, t),
    ensures
        round_gives(round, cur, t, nxt.subrange(0, HASH_SPACE_WIDTH as int)),
{
    let h = choose|h: Seq<Felt>|
        h.len() == HASH_SPACE_WIDTH && round_gives(round, cur, t, h) && nxt == row_after_round(
            cur,
            h,
        );
    assert(nxt.subrange(0, HASH_SPACE_WIDTH as int) =~= h);
}

} // verus!
