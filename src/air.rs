//! The constraint system: transition constraints between adjacent rows, each
//! gated by a periodic flag, and boundary assertions that pin disclosed
//! leaves, the nonce, the commitment and the cleared capacity lanes.
use crate::field::{Felt, MODULUS};
use crate::layout::{
    CYCLE_LEN, DIGEST_WIDTH, HASH_SPACE_WIDTH, RATE_WIDTH, STATE_WIDTH, STORAGE_START,
};
use crate::periodic::{
    periodic_values_at,    get_hashmask_constants, get_merkle_root_copy_constants, get_move_from_storage_constants,
    get_move_to_storage_constants,
};
use crate::schedule::{leaf_steps, leaf_steps_in_postorder};
use crate::trace::{
    padded_length, rows_view, commitment_step, indices_ascending, indices_in_range, input_error, leaf_levels, root_step,
    valid_leaf_count, InputError,
};
use crate::schedule::{
    lemma_load_kinds_perfect, lemma_tree_kinds, lemma_true_positions, load_kinds,
};
use vstd::prelude::*;

verus! {

/// What the verifier knows: the disclosed leaves and their indices, the number
/// of leaves, the commitment and the nonce.
pub struct PublicInputs {
    pub disclosed_attributes: Vec<[Felt; DIGEST_WIDTH]>,
    pub indices: Vec<usize>,
    pub num_of_attributes: usize,
    pub comm: [Felt; RATE_WIDTH],
    pub nonce: [Felt; DIGEST_WIDTH],
}

/// A boundary assertion: the trace holds `value` in `column` at row `step`.
#[derive(Clone, Copy, Debug, PartialEq, Eq, Structural)]
pub struct Assertion {
    pub column: usize,
    pub step: usize,
    pub value: Felt,
}

/// The constraint system for one trace shape and one set of public inputs.
pub struct MerkleAir {
    pub trace_length: usize,
    pub trace_width: usize,
    pub disclosed_attributes: Vec<[Felt; DIGEST_WIDTH]>,
    pub disclosed_indices: Vec<usize>,
    pub num_of_attributes: usize,
    pub comm: [Felt; RATE_WIDTH],
    pub nonce: [Felt; DIGEST_WIDTH],
}

/// `f * (a - b)` in the field: zero where the flag `f` is off or `a` equals `b`.
pub open spec fn gated(f: Felt, a: Felt, b: Felt) -> Felt {
    Felt { value: ((f.val() * (a.val() - b.val())) % (MODULUS as int)) as u32 }
}

fn gate(f: &Felt, a: &Felt, b: &Felt) -> (r: Felt)
    ensures
        r == gated(*f, *a, *b),
{
    let d = a.sub(b);
    let r = f.mul(&d);
    proof {
        vstd::arithmetic::div_mod::lemma_mul_mod_noop_right(
            f.val(),
            a.val() - b.val(),
            MODULUS as int,
        );
    }
    r
}

/// `len` constraints `f * (nxt[noff + j] - other[ooff + j])`.
pub open spec fn gated_run(
    f: Felt,
    nxt: Seq<Felt>,
    noff: int,
    other: Seq<Felt>,
    ooff: int,
    len: int,
) -> Seq<Felt> {
    Seq::new(len as nat, |j: int| gated(f, nxt[noff + j], other[ooff + j]))
}

fn push_gated(
    out: &mut Vec<Felt>,
    f: &Felt,
    nxt: &Vec<Felt>,
    noff: usize,
    other: &Vec<Felt>,
    ooff: usize,
    len: usize,
)
    requires
        noff + len <= nxt@.len(),
        ooff + len <= other@.len(),
    ensures
        final(out)@ == old(out)@ + gated_run(*f, nxt@, noff as int, other@, ooff as int, len as int),
{
    let ghost start = old(out)@;
    let nl: usize = nxt.len();
    let ol: usize = other.len();
    let mut j: usize = 0;
    while j < len
        invariant
            nl == nxt@.len(),
            ol == other@.len(),
            noff + len <= nxt@.len(),
            ooff + len <= other@.len(),
            j <= len,
            out@ == start + gated_run(*f, nxt@, noff as int, other@, ooff as int, j as int),
        decreases len - j,
    {
        assert(noff + j < nxt@.len() && ooff + j < other@.len());
        let g = gate(f, &nxt[noff + j], &other[ooff + j]);
        out.push(g);
        j = j + 1;
        assert(out@ =~= start + gated_run(*f, nxt@, noff as int, other@, ooff as int, j as int));
    }
}

/// `len` zeros.
pub open spec fn zero_seq(len: nat) -> Seq<Felt> {
    Seq::new(len, |j: int| Felt::spec_zero())
}

/// The constraint values between row `cur` and row `nxt`, under the periodic
/// values `pv` (round flag, push flag, pop flag, root-copy flag, then the
/// round constants) and the residuals `res` of the three chained round links
/// of the hash space (see `hash_residuals`):
/// the residuals and frozen storage while hashing; on a push, the new entry
/// and the shifted stack; on a pop, the two inputs, the shifted stack and the
/// freed last slot; on the root copy, the kept digest.
pub open spec fn constraint_values(cur: Seq<Felt>, nxt: Seq<Felt>, pv: Seq<Felt>, res: Seq<Felt>) -> Seq<Felt> {
    let w = cur.len() as int;
    let d = DIGEST_WIDTH as int;
    let s = STORAGE_START as int;
    let zeros = Seq::new(DIGEST_WIDTH as nat, |j: int| Felt::spec_zero());
    gated_run(pv[0], res, 0, zero_seq(HASH_SPACE_WIDTH as nat), 0, HASH_SPACE_WIDTH as int)
        + gated_run(pv[0], nxt, s, cur, s, w - s)
        + gated_run(pv[1], nxt, s, cur, 0, d)
        + gated_run(pv[1], nxt, s + d, cur, s, w - s - d)
        + gated_run(pv[2], nxt, 0, cur, s, d)
        + gated_run(pv[2], nxt, d, cur, 0, d)
        + gated_run(pv[2], nxt, s, cur, s + d, w - s - d)
        + gated_run(pv[2], nxt, w - d, zeros, 0, d)
        + gated_run(pv[3], nxt, 0, cur, 0, d)
}

/// Lanes `[noff, noff + len)` of `nxt` equal lanes `[ooff, ooff + len)` of
/// `other` as field elements.
pub open spec fn lanes_equal(nxt: Seq<Felt>, noff: int, other: Seq<Felt>, ooff: int, len: int) -> bool {
    forall|j: int| 0 <= j < len ==> (#[trigger] nxt[noff + j]).val() == other[ooff + j].val()
}

/// The relation the constraints express between two rows, for the flags that
/// are on: while hashing, every round-link residual vanishes and storage is
/// kept.
pub open spec fn transition_holds(
    cur: Seq<Felt>,
    nxt: Seq<Felt>,
    hashing: bool,
    push: bool,
    pop: bool,
    root_copy: bool,
    res: Seq<Felt>,
) -> bool {
    let w = cur.len() as int;
    let d = DIGEST_WIDTH as int;
    let s = STORAGE_START as int;
    let zeros = Seq::new(DIGEST_WIDTH as nat, |j: int| Felt::spec_zero());
    &&& hashing ==> lanes_equal(res, 0, zero_seq(HASH_SPACE_WIDTH as nat), 0, HASH_SPACE_WIDTH as int)
        && lanes_equal(
        nxt,
        s,
        cur,
        s,
        w - s,
    )
    &&& push ==> lanes_equal(nxt, s, cur, 0, d) && lanes_equal(nxt, s + d, cur, s, w - s - d)
    &&& pop ==> lanes_equal(nxt, 0, cur, s, d) && lanes_equal(nxt, d, cur, 0, d) && lanes_equal(
        nxt,
        s,
        cur,
        s + d,
        w - s - d,
    ) && lanes_equal(nxt, w - d, zeros, 0, d)
    &&& root_copy ==> lanes_equal(nxt, 0, cur, 0, d)
}

/// `res` is what the one-round check `round_check` gives for the link from
/// sponge state `from` to sponge state `to` under round constants `ark`: per
/// lane, zero where `to` is one permutation round applied to `from`.
pub open spec fn link_residual<R: Fn(&Vec<Felt>, &Vec<Felt>, &Vec<Felt>) -> Vec<Felt>>(
    round_check: R,
    from: Seq<Felt>,
    to: Seq<Felt>,
    ark: Seq<Felt>,
    res: Seq<Felt>,
) -> bool {
    exists|a: Vec<Felt>, b: Vec<Felt>, c: Vec<Felt>, o: Vec<Felt>|
        a@ == from && b@ == to && c@ == ark && call_ensures(round_check, (&a, &b, &c), o) && o@
            == res
}

/// Lanes `[k * STATE_WIDTH, (k + 1) * STATE_WIDTH)`: shadow copy `k` of a hash
/// space, or the `k`-th block of round constants.
pub open spec fn copy_of(r: Seq<Felt>, k: int) -> Seq<Felt> {
    r.subrange(k * STATE_WIDTH, (k + 1) * STATE_WIDTH)
}

/// The residuals of the three chained round links of a hashing step, one
/// block of `STATE_WIDTH` each: the current sponge state to the next row's
/// copy 2, copy 2 to copy 1, copy 1 to the next sponge state (copy 0), under
/// the three blocks of round constants `ark`. Each link is one round, so
/// each constraint keeps the degree of a single round.
pub open spec fn hash_residuals<R: Fn(&Vec<Felt>, &Vec<Felt>, &Vec<Felt>) -> Vec<Felt>>(
    round_check: R,
    cur: Seq<Felt>,
    nxt: Seq<Felt>,
    ark: Seq<Felt>,
    res: Seq<Felt>,
) -> bool {
    &&& res.len() == HASH_SPACE_WIDTH
    &&& link_residual(round_check, copy_of(cur, 0), copy_of(nxt, 2), copy_of(ark, 0), copy_of(res, 0))
    &&& link_residual(round_check, copy_of(nxt, 2), copy_of(nxt, 1), copy_of(ark, 1), copy_of(res, 1))
    &&& link_residual(round_check, copy_of(nxt, 1), copy_of(nxt, 0), copy_of(ark, 2), copy_of(res, 2))
}

/// The one-round check gives a residual for every lane.
pub open spec fn round_check_ok<R: Fn(&Vec<Felt>, &Vec<Felt>, &Vec<Felt>) -> Vec<Felt>>(round_check: R) -> bool {
    &&& forall|a: &Vec<Felt>, b: &Vec<Felt>, c: &Vec<Felt>| call_requires(round_check, (a, b, c))
    &&& forall|a: &Vec<Felt>, b: &Vec<Felt>, c: &Vec<Felt>, o: Vec<Felt>|
        call_ensures(round_check, (a, b, c), o) ==> o@.len() == STATE_WIDTH
}

/// Lanes `[start, start + len)` of `v`.
fn lanes_of(v: &Vec<Felt>, start: usize, len: usize) -> (out: Vec<Felt>)
    requires
        start + len <= v@.len(),
    ensures
        out@ == v@.subrange(start as int, start + len),
{
    let vl = v.len();
    let mut out: Vec<Felt> = Vec::new();
    let mut i: usize = 0;
    while i < len
        invariant
            vl == v@.len(),
            start + len <= v@.len(),
            i <= len,
            out@ == v@.subrange(start as int, start + i),
        decreases len - i,
    {
        out.push(v[start + i]);
        i = i + 1;
        assert(out@ =~= v@.subrange(start as int, start + i));
    }
    out
}

/// `f * r` for each residual `r`.
fn push_scaled(out: &mut Vec<Felt>, f: &Felt, res: &Vec<Felt>)
    ensures
        final(out)@ == old(out)@ + gated_run(*f, res@, 0, zero_seq(res@.len()), 0, res@.len() as int),
{
    let zeros: Vec<Felt> = vec![Felt::zero(); res.len()];
    assert(zeros@ =~= zero_seq(res@.len()));
    push_gated(out, f, res, 0, &zeros, 0, res.len());
}

/// The round constraints of a hashing step, wherever `flag` is on: the three
/// chained one-round links from the current sponge state through the next
/// row's copies 2 and 1 to its copy 0, each checked by `round_check` under
/// its block of the round constants `ark`.
pub fn assert_hash<R: Fn(&Vec<Felt>, &Vec<Felt>, &Vec<Felt>) -> Vec<Felt>>(
    result: &mut Vec<Felt>,
    current: &Vec<Felt>,
    next: &Vec<Felt>,
    ark: &Vec<Felt>,
    flag: &Felt,
    round_check: &R,
)
    requires
        current@.len() >= HASH_SPACE_WIDTH,
        next@.len() >= HASH_SPACE_WIDTH,
        ark@.len() == HASH_SPACE_WIDTH,
        round_check_ok(*round_check),
    ensures
        exists|res: Seq<Felt>|
            hash_residuals(*round_check, current@, next@, ark@, res) && final(result)@ == old(
                result,
            )@ + gated_run(*flag, res, 0, zero_seq(HASH_SPACE_WIDTH as nat), 0, HASH_SPACE_WIDTH as int),
{
    let ghost start = old(result)@;
    let sw = STATE_WIDTH;
    let s0 = lanes_of(current, 0, sw);
    let n2 = lanes_of(next, 2 * sw, sw);
    let n1 = lanes_of(next, sw, sw);
    let n0 = lanes_of(next, 0, sw);
    let a0 = lanes_of(ark, 0, sw);
    let a1 = lanes_of(ark, sw, sw);
    let a2 = lanes_of(ark, 2 * sw, sw);
    let r0 = round_check(&s0, &n2, &a0);
    let r1 = round_check(&n2, &n1, &a1);
    let r2 = round_check(&n1, &n0, &a2);
    let ghost res = r0@ + r1@ + r2@;
    assert(copy_of(res, 0) =~= r0@);
    assert(copy_of(res, 1) =~= r1@);
    assert(copy_of(res, 2) =~= r2@);
    assert(link_residual(*round_check, copy_of(current@, 0), copy_of(next@, 2), copy_of(ark@, 0), r0@));
    assert(link_residual(*round_check, copy_of(next@, 2), copy_of(next@, 1), copy_of(ark@, 1), r1@));
    assert(link_residual(*round_check, copy_of(next@, 1), copy_of(next@, 0), copy_of(ark@, 2), r2@));
    push_scaled(result, flag, &r0);
    push_scaled(result, flag, &r1);
    push_scaled(result, flag, &r2);
    assert(final(result)@ =~= start + gated_run(
        *flag,
        res,
        0,
        zero_seq(HASH_SPACE_WIDTH as nat),
        0,
        HASH_SPACE_WIDTH as int,
    ));
    assert(hash_residuals(*round_check, current@, next@, ark@, res));
}

/// Number of transition constraint values for rows of width `w`.
pub open spec fn num_constraints(w: int) -> int {
    HASH_SPACE_WIDTH + (w - STORAGE_START) + DIGEST_WIDTH + (w - STORAGE_START - DIGEST_WIDTH)
        + 2 * DIGEST_WIDTH + (w - STORAGE_START - DIGEST_WIDTH) + DIGEST_WIDTH + DIGEST_WIDTH
}

/// Degree of the round constraints: one round, whose S-box is a cube.
pub const ROUND_DEGREE: usize = 3;

/// The number of boundary assertions for `n` leaves of which `d` are
/// disclosed: a digest per disclosed leaf, the nonce, the commitment, and the
/// capacity lanes at each of the `n` cycle starts.
pub open spec fn num_assertions(n: int, d: int) -> int {
    d * DIGEST_WIDTH + DIGEST_WIDTH + RATE_WIDTH + n * (STATE_WIDTH - RATE_WIDTH)
}

/// The `i`-th boundary assertion, in this order: each disclosed leaf, lane by
/// lane, in the rate half it is loaded into, at the first row of the hash
/// cycle that loads it; the nonce in the second digest lanes at the first row
/// of the last hash cycle; the commitment in the rate at the last row of that
/// cycle; zero in the capacity lanes at the first row of every hash cycle.
pub open spec fn assertion_at(
    n: int,
    idx: Seq<usize>,
    disclosed: Seq<[Felt; DIGEST_WIDTH]>,
    comm: Seq<Felt>,
    nonce: Seq<Felt>,
    i: int,
) -> Assertion {
    let d = DIGEST_WIDTH as int;
    let dd = idx.len() * d;
    let cap = (STATE_WIDTH - RATE_WIDTH) as int;
    if i < dd {
        let j = i / d;
        let k = i % d;
        let x = idx[j] as int;
        Assertion {
            column: ((x % 2) * d + k) as usize,
            step: (leaf_steps(n - 1)[x / 2] * CYCLE_LEN) as usize,
            value: disclosed[j]@[k],
        }
    } else if i < dd + d {
        let k = i - dd;
        Assertion { column: (d + k) as usize, step: (root_step(n) + 1) as usize, value: nonce[k] }
    } else if i < dd + d + RATE_WIDTH {
        let k = i - dd - d;
        Assertion { column: k as usize, step: commitment_step(n) as usize, value: comm[k] }
    } else {
        let m = i - dd - d - RATE_WIDTH;
        Assertion {
            column: (RATE_WIDTH + m % cap) as usize,
            step: ((m / cap) * CYCLE_LEN) as usize,
            value: Felt::spec_zero(),
        }
    }
}

/// The public inputs are consistent: a supported number of leaves, disclosed
/// indices strictly ascending and below it, one disclosed leaf per index.
pub open spec fn public_inputs_error(
    n: int,
    idx: Seq<usize>,
    disclosed_len: int,
) -> Option<InputError> {
    if input_error(n, idx) is Some {
        input_error(n, idx)
    } else if disclosed_len != idx.len() {
        Some(InputError::LengthMismatch)
    } else {
        None
    }
}

impl PublicInputs {
    /// Checks the public inputs, in the order of `public_inputs_error`.
    pub fn validate(&self) -> (r: Result<(), InputError>)
        ensures
            r is Ok <==> public_inputs_error(
                self.num_of_attributes as int,
                self.indices@,
                self.disclosed_attributes@.len() as int,
            ) is None,
            r is Err ==> r->Err_0 == public_inputs_error(
                self.num_of_attributes as int,
                self.indices@,
                self.disclosed_attributes@.len() as int,
            )->0,
    {
        let n = self.num_of_attributes;
        if leaf_levels(n).is_none() {
            return Err(InputError::InvalidAttributeCount);
        }
        let idx = &self.indices;
        let mut i: usize = 0;
        while i < idx.len()
            invariant
                i <= idx@.len(),
                idx@ == self.indices@,
                n == self.num_of_attributes,
                valid_leaf_count(n as int),
                forall|j: int| 0 <= j < i ==> idx@[j] < n,
            decreases idx@.len() - i,
        {
            if idx[i] >= n {
                assert(!indices_in_range(idx@, n as int)) by {
                    assert(idx@[i as int] >= n);
                }
                return Err(InputError::IndexOutOfRange);
            }
            i = i + 1;
        }
        let mut i: usize = 1;
        while i < idx.len()
            invariant
                1 <= i,
                idx@ == self.indices@,
                n == self.num_of_attributes,
                valid_leaf_count(n as int),
                indices_in_range(idx@, n as int),
                forall|j: int| 0 <= j < i - 1 && j < idx@.len() - 1 ==> #[trigger] idx@[j] < idx@[j + 1],
            decreases idx@.len() - i,
        {
            if idx[i - 1] >= idx[i] {
                assert(!indices_ascending(idx@)) by {
                    assert(idx@[i - 1] >= idx@[(i - 1) + 1]);
                }
                return Err(InputError::IndicesNotAscending);
            }
            i = i + 1;
        }
        if self.disclosed_attributes.len() != idx.len() {
            return Err(InputError::LengthMismatch);
        }
        Ok(())
    }
}

impl MerkleAir {
    /// The constraint system for a trace of the shape the builder gives for
    /// `pub_inputs.num_of_attributes` leaves.
    pub fn new(trace_length: usize, trace_width: usize, pub_inputs: PublicInputs) -> (r: Self)
        requires
            valid_leaf_count(pub_inputs.num_of_attributes as int),
            pub_inputs.num_of_attributes <= usize::MAX / 32,
            trace_length == padded_length(pub_inputs.num_of_attributes as int),
            trace_width == crate::trace::trace_width(pub_inputs.num_of_attributes as int),
        ensures
            r.trace_length == trace_length,
            r.trace_width == trace_width,
            r.disclosed_attributes == pub_inputs.disclosed_attributes,
            r.disclosed_indices == pub_inputs.indices,
            r.num_of_attributes == pub_inputs.num_of_attributes,
            r.comm == pub_inputs.comm,
            r.nonce == pub_inputs.nonce,
    {
        MerkleAir {
            trace_length,
            trace_width,
            disclosed_attributes: pub_inputs.disclosed_attributes,
            disclosed_indices: pub_inputs.indices,
            num_of_attributes: pub_inputs.num_of_attributes,
            comm: pub_inputs.comm,
            nonce: pub_inputs.nonce,
        }
    }

    /// The transition constraint values between `current` and `next`: they
    /// depend on the two rows and the periodic values alone (the flags, then
    /// the round constants of the step), with `round_check` checking one round.
    pub fn evaluate_transition<R: Fn(&Vec<Felt>, &Vec<Felt>, &Vec<Felt>) -> Vec<Felt>>(
        &self,
        current: &Vec<Felt>,
        next: &Vec<Felt>,
        periodic_values: &Vec<Felt>,
        round_check: &R,
    ) -> (r: Vec<Felt>)
        requires
            current@.len() == next@.len(),
            current@.len() >= STORAGE_START + DIGEST_WIDTH,
            periodic_values@.len() == 4 + HASH_SPACE_WIDTH,
            round_check_ok(*round_check),
        ensures
            r@.len() == num_constraints(current@.len() as int),
            exists|res: Seq<Felt>|
                hash_residuals(
                    *round_check,
                    current@,
                    next@,
                    periodic_values@.subrange(4, 4 + HASH_SPACE_WIDTH),
                    res,
                ) && r@ == constraint_values(current@, next@, periodic_values@, res),
    {
        let w = current.len();
        let d = DIGEST_WIDTH;
        let s = STORAGE_START;
        let hashing = periodic_values[0];
        let push = periodic_values[1];
        let pop = periodic_values[2];
        let root_copy = periodic_values[3];
        let ark = lanes_of(periodic_values, 4, HASH_SPACE_WIDTH);
        let zeros: Vec<Felt> = vec![Felt::zero(); DIGEST_WIDTH];
        assert(zeros@ =~= Seq::new(DIGEST_WIDTH as nat, |j: int| Felt::spec_zero()));
        let mut r: Vec<Felt> = Vec::new();
        assert_hash(&mut r, current, next, &ark, &hashing, round_check);
        let ghost res = choose|res: Seq<Felt>|
            hash_residuals(*round_check, current@, next@, ark@, res) && r@ == Seq::<Felt>::empty()
                + gated_run(hashing, res, 0, zero_seq(HASH_SPACE_WIDTH as nat), 0, HASH_SPACE_WIDTH as int);
        push_gated(&mut r, &hashing, next, s, current, s, w - s);
        push_gated(&mut r, &push, next, s, current, 0, d);
        push_gated(&mut r, &push, next, s + d, current, s, w - s - d);
        push_gated(&mut r, &pop, next, 0, current, s, d);
        push_gated(&mut r, &pop, next, d, current, 0, d);
        push_gated(&mut r, &pop, next, s, current, s + d, w - s - d);
        push_gated(&mut r, &pop, next, w - d, &zeros, 0, d);
        push_gated(&mut r, &root_copy, next, 0, current, 0, d);
        assert(r@ =~= constraint_values(current@, next@, periodic_values@, res));
        assert(num_constraints(w as int) == 105 + (w - 105) + 12 + (w - 117) + 24 + (w - 117) + 24);
        assert(r@.len() == num_constraints(w as int));
        r
    }

    /// The degree of each transition constraint value, in the order of
    /// `constraint_values`: `ROUND_DEGREE` for the round links, one for the
    /// storage and copy constraints (each gated by a periodic flag).
    pub fn transition_degrees(&self) -> (r: Vec<usize>)
        requires
            self.trace_width >= STORAGE_START + DIGEST_WIDTH,
            self.trace_width <= usize::MAX / 8,
        ensures
            r@.len() == num_constraints(self.trace_width as int),
            forall|i: int| 0 <= i < HASH_SPACE_WIDTH ==> #[trigger] r@[i] == ROUND_DEGREE,
            forall|i: int| HASH_SPACE_WIDTH <= i < r@.len() ==> #[trigger] r@[i] == 1,
    {
        let w = self.trace_width;
        let total = HASH_SPACE_WIDTH + (w - STORAGE_START) + DIGEST_WIDTH + (w - STORAGE_START
            - DIGEST_WIDTH) + 2 * DIGEST_WIDTH + (w - STORAGE_START - DIGEST_WIDTH) + DIGEST_WIDTH
            + DIGEST_WIDTH;
        let mut r: Vec<usize> = Vec::new();
        let mut i: usize = 0;
        while i < total
            invariant
                total == num_constraints(w as int),
                i <= total,
                r@.len() == i,
                forall|j: int| 0 <= j < i && j < HASH_SPACE_WIDTH ==> #[trigger] r@[j] == ROUND_DEGREE,
                forall|j: int| HASH_SPACE_WIDTH <= j < i ==> #[trigger] r@[j] == 1,
            decreases total - i,
        {
            r.push(if i < HASH_SPACE_WIDTH { ROUND_DEGREE } else { 1 });
            i = i + 1;
        }
        r
    }

    /// The boundary assertions, as `assertion_at` lists them.
    pub fn get_assertions(&self) -> (r: Vec<Assertion>)
        requires
            valid_leaf_count(self.num_of_attributes as int),
            self.num_of_attributes <= usize::MAX / 32,
            indices_in_range(self.disclosed_indices@, self.num_of_attributes as int),
            self.disclosed_attributes@.len() == self.disclosed_indices@.len(),
        ensures
            r@.len() == num_assertions(
                self.num_of_attributes as int,
                self.disclosed_indices@.len() as int,
            ),
            forall|i: int|
                0 <= i < r@.len() ==> #[trigger] r@[i] == assertion_at(
                    self.num_of_attributes as int,
                    self.disclosed_indices@,
                    self.disclosed_attributes@,
                    self.comm@,
                    self.nonce@,
                    i,
                ),
    {
        let n = self.num_of_attributes;
        let ghost spec_n = n as int;
        let idx = &self.disclosed_indices;
        let dis = &self.disclosed_attributes;
        let h = match leaf_levels(n) {
            Some(h) => h,
            None => {
                return Vec::new();
            },
        };
        let steps = leaf_steps_in_postorder(n - 1);
        let ghost ks = load_kinds(n - 1);
        proof {
            lemma_load_kinds_perfect(h as nat);
            lemma_tree_kinds(h as nat);
            lemma_true_positions(ks);
            vstd::arithmetic::power2::lemma_pow2_unfold(h as nat);
        }
        let mut r: Vec<Assertion> = Vec::new();
        let mut j: usize = 0;
        while j < idx.len()
            invariant
                idx@ == self.disclosed_indices@,
                dis@ == self.disclosed_attributes@,
                dis@.len() == idx@.len(),
                indices_in_range(idx@, n as int),
                spec_n == n,
                n >= 2,
                n <= usize::MAX / 32,
                steps@ == leaf_steps(n - 1),
                steps@.len() * 2 == n,
                ks.len() == n - 1,
                forall|p: int| 0 <= p < steps@.len() ==> #[trigger] steps@[p] < ks.len(),
                j <= idx@.len(),
                r@.len() == j * DIGEST_WIDTH,
                forall|i: int| 0 <= i < r@.len() ==> #[trigger] r@[i] == assertion_at(
                    spec_n,
                    self.disclosed_indices@,
                    self.disclosed_attributes@,
                    self.comm@,
                    self.nonce@,
                    i,
                ),
            decreases idx@.len() - j,
        {
            let x = idx[j];
            let p = x / 2;
            let step = steps[p] * CYCLE_LEN;
            let lane = (x % 2) * DIGEST_WIDTH;
            let mut k: usize = 0;
            while k < DIGEST_WIDTH
                invariant
                    idx@ == self.disclosed_indices@,
                    dis@ == self.disclosed_attributes@,
                    dis@.len() == idx@.len(),
                    spec_n == n,
                    j < idx@.len(),
                    x == idx@[j as int],
                    steps@ == leaf_steps(n - 1),
                    step == steps@[(x / 2) as int] * CYCLE_LEN,
                    lane == (x % 2) * DIGEST_WIDTH,
                    k <= DIGEST_WIDTH,
                    r@.len() == j * DIGEST_WIDTH + k,
                    forall|i: int| 0 <= i < r@.len() ==> #[trigger] r@[i] == assertion_at(
                    spec_n,
                    self.disclosed_indices@,
                    self.disclosed_attributes@,
                    self.comm@,
                    self.nonce@,
                    i,
                ),
                decreases DIGEST_WIDTH - k,
            {
                let ghost at = r@.len() as int;
                proof {
                    vstd::arithmetic::div_mod::lemma_fundamental_div_mod_converse(
                        at,
                        DIGEST_WIDTH as int,
                        j as int,
                        k as int,
                    );
                    assert(at < idx@.len() * DIGEST_WIDTH) by (nonlinear_arith)
                        requires
                            at == j * DIGEST_WIDTH + k,
                            k < DIGEST_WIDTH,
                            j < idx@.len(),
                    ;
                }
                r.push(Assertion { column: lane + k, step, value: dis[j][k] });
                k = k + 1;
            }
            j = j + 1;
        }
        assert(r@.len() == idx@.len() * DIGEST_WIDTH);
        let base = r.len();
        let mut k: usize = 0;
        while k < DIGEST_WIDTH
            invariant
                base == idx@.len() * DIGEST_WIDTH,
                idx@ == self.disclosed_indices@,
                spec_n == n,
                n >= 2,
                n <= usize::MAX / 32,
                k <= DIGEST_WIDTH,
                r@.len() == base + k,
                forall|i: int| 0 <= i < r@.len() ==> #[trigger] r@[i] == assertion_at(
                    spec_n,
                    self.disclosed_indices@,
                    self.disclosed_attributes@,
                    self.comm@,
                    self.nonce@,
                    i,
                ),
            decreases DIGEST_WIDTH - k,
        {
            r.push(Assertion { column: DIGEST_WIDTH + k, step: CYCLE_LEN * (n - 1), value: self.nonce[k] });
            k = k + 1;
        }
        let mut k: usize = 0;
        while k < RATE_WIDTH
            invariant
                base == idx@.len() * DIGEST_WIDTH,
                idx@ == self.disclosed_indices@,
                spec_n == n,
                n >= 2,
                n <= usize::MAX / 32,
                k <= RATE_WIDTH,
                r@.len() == base + DIGEST_WIDTH + k,
                forall|i: int| 0 <= i < r@.len() ==> #[trigger] r@[i] == assertion_at(
                    spec_n,
                    self.disclosed_indices@,
                    self.disclosed_attributes@,
                    self.comm@,
                    self.nonce@,
                    i,
                ),
            decreases RATE_WIDTH - k,
        {
            r.push(Assertion { column: k, step: CYCLE_LEN * n - 1, value: self.comm[k] });
            k = k + 1;
        }
        let cap = STATE_WIDTH - RATE_WIDTH;
        let mut c: usize = 0;
        while c < n
            invariant
                base == idx@.len() * DIGEST_WIDTH,
                idx@ == self.disclosed_indices@,
                spec_n == n,
                n <= usize::MAX / 32,
                cap == STATE_WIDTH - RATE_WIDTH,
                c <= n,
                r@.len() == base + DIGEST_WIDTH + RATE_WIDTH + c * (STATE_WIDTH - RATE_WIDTH),
                forall|i: int| 0 <= i < r@.len() ==> #[trigger] r@[i] == assertion_at(
                    spec_n,
                    self.disclosed_indices@,
                    self.disclosed_attributes@,
                    self.comm@,
                    self.nonce@,
                    i,
                ),
            decreases n - c,
        {
            let mut k: usize = 0;
            while k < cap
                invariant
                    base == idx@.len() * DIGEST_WIDTH,
                idx@ == self.disclosed_indices@,
                    spec_n == n,
                    n <= usize::MAX / 32,
                    cap == STATE_WIDTH - RATE_WIDTH,
                    c < n,
                    k <= cap,
                    r@.len() == base + DIGEST_WIDTH + RATE_WIDTH + c * (STATE_WIDTH - RATE_WIDTH) + k,
                    forall|i: int| 0 <= i < r@.len() ==> #[trigger] r@[i] == assertion_at(
                    spec_n,
                    self.disclosed_indices@,
                    self.disclosed_attributes@,
                    self.comm@,
                    self.nonce@,
                    i,
                ),
                decreases cap - k,
            {
                proof {
                    vstd::arithmetic::div_mod::lemma_fundamental_div_mod_converse(
                        c * cap + k,
                        cap as int,
                        c as int,
                        k as int,
                    );
                }
                r.push(Assertion { column: RATE_WIDTH + k, step: c * CYCLE_LEN, value: Felt::zero() });
                k = k + 1;
            }
            assert((c + 1) * (STATE_WIDTH - RATE_WIDTH) == c * (STATE_WIDTH - RATE_WIDTH) + (
            STATE_WIDTH - RATE_WIDTH)) by (nonlinear_arith);
            c = c + 1;
        }
        r
    }

    /// The periodic columns: round flags, push flags, pop flags, root-copy
    /// flags.
    /// The periodic columns: round flags, push flags, pop flags, root-copy
    /// flags, then one column per round constant. `round_constants` holds the
    /// constants of each step of a hash cycle (`CYCLE_LEN` rows of three
    /// blocks of `STATE_WIDTH`); they are tiled over the `n` hash cycles and
    /// zero after them.
    pub fn get_periodic_column_values(&self, round_constants: &Vec<Vec<Felt>>) -> (r: Vec<Vec<Felt>>)
        requires
            valid_leaf_count(self.num_of_attributes as int),
            self.num_of_attributes <= usize::MAX / 32,
            round_constants@.len() == CYCLE_LEN,
            forall|k: int| 0 <= k < CYCLE_LEN ==> (#[trigger] round_constants@[k])@.len() == HASH_SPACE_WIDTH,
        ensures
            r@.len() == 4 + HASH_SPACE_WIDTH,
            forall|i: int| 0 <= i < r@.len() ==> (#[trigger] r@[i])@.len() == self.trace_length,
            forall|i: int, t: int|
                0 <= i < 4 && 0 <= t < self.trace_length ==> #[trigger] r@[i]@[t]
                    == periodic_values_at(self.num_of_attributes as int, t)[i],
            forall|i: int, t: int|
                4 <= i < r@.len() && 0 <= t < self.trace_length ==> #[trigger] r@[i]@[t]
                    == round_constant_at(
                    rows_view(round_constants@),
                    self.num_of_attributes as int,
                    t,
                    i - 4,
                ),
    {
        let n = self.num_of_attributes;
        let len = self.trace_length;
        let mut r: Vec<Vec<Felt>> = Vec::new();
        r.push(get_hashmask_constants(len, n));
        r.push(get_move_to_storage_constants(len, n));
        r.push(get_move_from_storage_constants(len, n));
        r.push(get_merkle_root_copy_constants(len, n));
        assert forall|i: int, t: int|
            0 <= i < 4 && 0 <= t < len implies #[trigger] r@[i]@[t] == periodic_values_at(
                n as int,
                t,
            )[i] by {
            assert(r@[i]@[t] == r@[i]@[t]);
        }
        let active: usize = CYCLE_LEN * n;
        let mut m: usize = 0;
        while m < HASH_SPACE_WIDTH
            invariant
                n == self.num_of_attributes,
                len == self.trace_length,
                n <= usize::MAX / 32,
                active == CYCLE_LEN * n,
                round_constants@.len() == CYCLE_LEN,
                forall|k: int| 0 <= k < CYCLE_LEN ==> (#[trigger] round_constants@[k])@.len() == HASH_SPACE_WIDTH,
                m <= HASH_SPACE_WIDTH,
                r@.len() == 4 + m,
                forall|i: int| 0 <= i < r@.len() ==> (#[trigger] r@[i])@.len() == len,
                forall|i: int, t: int|
                    0 <= i < 4 && 0 <= t < len ==> #[trigger] r@[i]@[t] == periodic_values_at(
                        n as int,
                        t,
                    )[i],
                forall|i: int, t: int|
                    4 <= i < r@.len() && 0 <= t < len ==> #[trigger] r@[i]@[t] == round_constant_at(
                        rows_view(round_constants@),
                        n as int,
                        t,
                        i - 4,
                    ),
            decreases HASH_SPACE_WIDTH - m,
        {
            let mut col: Vec<Felt> = Vec::new();
            let mut t: usize = 0;
            while t < len
                invariant
                    active == CYCLE_LEN * n,
                    round_constants@.len() == CYCLE_LEN,
                    forall|k: int| 0 <= k < CYCLE_LEN ==> (#[trigger] round_constants@[k])@.len() == HASH_SPACE_WIDTH,
                    m < HASH_SPACE_WIDTH,
                    t <= len,
                    col@.len() == t,
                    forall|s: int| 0 <= s < t ==> #[trigger] col@[s] == round_constant_at(
                        rows_view(round_constants@),
                        n as int,
                        s,
                        m as int,
                    ),
                decreases len - t,
            {
                let v = if t < active {
                    round_constants[t % CYCLE_LEN][m]
                } else {
                    Felt::zero()
                };
                col.push(v);
                t = t + 1;
            }
            let ghost old_r = r@;
            r.push(col);
            proof {
                assert forall|i: int, t: int|
                    4 <= i < r@.len() && 0 <= t < len implies #[trigger] r@[i]@[t] == round_constant_at(
                        rows_view(round_constants@),
                        n as int,
                        t,
                        i - 4,
                    ) by {
                    if i < r@.len() - 1 {
                        assert(r@[i] == old_r[i]);
                    }
                }
                assert forall|i: int, t: int|
                    0 <= i < 4 && 0 <= t < len implies #[trigger] r@[i]@[t] == periodic_values_at(
                        n as int,
                        t,
                    )[i] by {
                    assert(r@[i] == old_r[i]);
                }
            }
            m = m + 1;
        }
        r
    }
}

/// Round constant `m` at step `t` for `n` leaves: the constants of the
/// step's position in its hash cycle during the `n` hash cycles, zero after.
pub open spec fn round_constant_at(table: Seq<Seq<Felt>>, n: int, t: int, m: int) -> Felt {
    if t < CYCLE_LEN * n {
        table[t % (CYCLE_LEN as int)][m]
    } else {
        Felt::spec_zero()
    }
}

// What the constraints mean
// ---------------------------------------------------------------------------

/// Every value of `s` is zero in the field.
pub open spec fn all_zero(s: Seq<Felt>) -> bool {
    forall|i: int| 0 <= i < s.len() ==> (#[trigger] s[i]).val() == 0
}

/// A flag value of the periodic columns: zero or one.
pub open spec fn is_flag(f: Felt) -> bool {
    f.value <= 1
}

proof fn lemma_gated_zero(f: Felt, a: Felt, b: Felt)
    requires
        is_flag(f),
    ensures
        gated(f, a, b).val() == 0 <==> (f.value == 0 || a.val() == b.val()),
{
    let q = MODULUS as int;
    vstd::arithmetic::div_mod::lemma_mod_bound(a.value as int, q);
    vstd::arithmetic::div_mod::lemma_mod_bound(b.value as int, q);
    vstd::arithmetic::div_mod::lemma_small_mod(f.value as nat, q as nat);
    let d = a.val() - b.val();
    let g = (f.val() * d) % q;
    vstd::arithmetic::div_mod::lemma_mod_bound(f.val() * d, q);
    assert(gated(f, a, b).value as int == g);
    vstd::arithmetic::div_mod::lemma_small_mod(g as nat, q as nat);
    assert(gated(f, a, b).val() == g);
    if f.value == 0 {
        assert(f.val() == 0);
        assert(f.val() * d == 0) by (nonlinear_arith)
            requires
                f.val() == 0,
        ;
        assert(g == 0);
    } else {
        assert(f.val() == 1);
        assert(f.val() * d == d) by (nonlinear_arith)
            requires
                f.val() == 1,
        ;
        if d >= 0 {
            vstd::arithmetic::div_mod::lemma_fundamental_div_mod_converse(d, q, 0, d);
        } else {
            vstd::arithmetic::div_mod::lemma_fundamental_div_mod_converse(d, q, -1, d + q);
        }
    }
}

proof fn lemma_all_zero_concat(a: Seq<Felt>, b: Seq<Felt>)
    ensures
        all_zero(a + b) <==> all_zero(a) && all_zero(b),
{
    if all_zero(a + b) {
        assert forall|i: int| 0 <= i < a.len() implies (#[trigger] a[i]).val() == 0 by {
            assert((a + b)[i] == a[i]);
        }
        assert forall|i: int| 0 <= i < b.len() implies (#[trigger] b[i]).val() == 0 by {
            assert((a + b)[a.len() + i] == b[i]);
        }
    }
    if all_zero(a) && all_zero(b) {
        assert forall|i: int| 0 <= i < (a + b).len() implies (#[trigger] (a + b)[i]).val() == 0 by {
            if i < a.len() {
                assert((a + b)[i] == a[i]);
            } else {
                assert((a + b)[i] == b[i - a.len()]);
            }
        }
    }
}

proof fn lemma_gated_run_zero(f: Felt, nxt: Seq<Felt>, noff: int, other: Seq<Felt>, ooff: int, len: int)
    requires
        is_flag(f),
        len >= 0,
    ensures
        all_zero(gated_run(f, nxt, noff, other, ooff, len)) <==> (f.value == 0 || lanes_equal(
            nxt,
            noff,
            other,
            ooff,
            len,
        )),
{
    let g = gated_run(f, nxt, noff, other, ooff, len);
    assert forall|j: int| 0 <= j < len implies (#[trigger] g[j]).val() == 0 <==> (f.value == 0
        || nxt[noff + j].val() == other[ooff + j].val()) by {
        lemma_gated_zero(f, nxt[noff + j], other[ooff + j]);
    }
    if all_zero(g) && f.value != 0 {
        assert forall|j: int| 0 <= j < len implies (#[trigger] nxt[noff + j]).val() == other[ooff
            + j].val() by {
            assert(g[j].val() == 0);
        }
    }
}

/// With 0/1 flags, every constraint value vanishes exactly when the two rows
/// are related as the flags that are on require.
pub proof fn lemma_constraints_vanish(cur: Seq<Felt>, nxt: Seq<Felt>, pv: Seq<Felt>, e: Seq<Felt>)
    requires
        cur.len() == nxt.len(),
        cur.len() >= STORAGE_START + DIGEST_WIDTH,
        pv.len() >= 4,
        is_flag(pv[0]),
        is_flag(pv[1]),
        is_flag(pv[2]),
        is_flag(pv[3]),
    ensures
        all_zero(constraint_values(cur, nxt, pv, e)) <==> transition_holds(
            cur,
            nxt,
            pv[0].value == 1,
            pv[1].value == 1,
            pv[2].value == 1,
            pv[3].value == 1,
            e,
        ),
{
    let w = cur.len() as int;
    let d = DIGEST_WIDTH as int;
    let s = STORAGE_START as int;
    let zeros = Seq::new(DIGEST_WIDTH as nat, |j: int| Felt::spec_zero());
    let g1 = gated_run(pv[0], e, 0, zero_seq(HASH_SPACE_WIDTH as nat), 0, HASH_SPACE_WIDTH as int);
    let g2 = gated_run(pv[0], nxt, s, cur, s, w - s);
    let g3 = gated_run(pv[1], nxt, s, cur, 0, d);
    let g4 = gated_run(pv[1], nxt, s + d, cur, s, w - s - d);
    let g5 = gated_run(pv[2], nxt, 0, cur, s, d);
    let g6 = gated_run(pv[2], nxt, d, cur, 0, d);
    let g7 = gated_run(pv[2], nxt, s, cur, s + d, w - s - d);
    let g8 = gated_run(pv[2], nxt, w - d, zeros, 0, d);
    let g9 = gated_run(pv[3], nxt, 0, cur, 0, d);
    lemma_gated_run_zero(pv[0], e, 0, zero_seq(HASH_SPACE_WIDTH as nat), 0, HASH_SPACE_WIDTH as int);
    lemma_gated_run_zero(pv[0], nxt, s, cur, s, w - s);
    lemma_gated_run_zero(pv[1], nxt, s, cur, 0, d);
    lemma_gated_run_zero(pv[1], nxt, s + d, cur, s, w - s - d);
    lemma_gated_run_zero(pv[2], nxt, 0, cur, s, d);
    lemma_gated_run_zero(pv[2], nxt, d, cur, 0, d);
    lemma_gated_run_zero(pv[2], nxt, s, cur, s + d, w - s - d);
    lemma_gated_run_zero(pv[2], nxt, w - d, zeros, 0, d);
    lemma_gated_run_zero(pv[3], nxt, 0, cur, 0, d);
    lemma_all_zero_concat(g1, g2);
    lemma_all_zero_concat(g1 + g2, g3);
    lemma_all_zero_concat(g1 + g2 + g3, g4);
    lemma_all_zero_concat(g1 + g2 + g3 + g4, g5);
    lemma_all_zero_concat(g1 + g2 + g3 + g4 + g5, g6);
    lemma_all_zero_concat(g1 + g2 + g3 + g4 + g5 + g6, g7);
    lemma_all_zero_concat(g1 + g2 + g3 + g4 + g5 + g6 + g7, g8);
    lemma_all_zero_concat(g1 + g2 + g3 + g4 + g5 + g6 + g7 + g8, g9);
}

} // verus!
