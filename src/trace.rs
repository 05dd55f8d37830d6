//! The witness generator: executes the hashing schedule and writes the value
//! of every register at every step.
use crate::air::PublicInputs;
use crate::field::Felt;
use crate::layout::{
    first_row, first_row_of, pop_row, push_row, root_row, round_row, row_after_pop, row_after_push,
    row_after_root, row_after_round, sentinel_row, sentinel_row_of, state_of, CYCLE_LEN,
    DIGEST_WIDTH, HASH_SPACE_WIDTH, NUM_ROUNDS, RATE_WIDTH, STATE_WIDTH, STORAGE_START,
};
use crate::schedule::{
    lemma_load_kinds_perfect, lemma_tree_kinds, lemma_true_positions,
    lemma_true_positions_member, leaf_steps, leaf_steps_in_postorder, load_kinds, loads_before,
};
use vstd::arithmetic::power2::{lemma_pow2_unfold, pow2};
use vstd::prelude::*;
use winterfell::ProofOptions;

verus! {

/// Declares winterfell's `ProofOptions`, the proof backend's security
/// parameters, so that a prover can carry them; nothing is assumed of their
/// contents.
#[verifier::external_type_specification]
#[verifier::external_body]
pub struct ExProofOptions(ProofOptions);

/// Why a set of inputs is refused before any trace is built.
#[derive(Clone, Copy, Debug, PartialEq, Eq, Structural)]
pub enum InputError {
    /// The number of attributes is not a power of two of at least two.
    InvalidAttributeCount,
    /// A disclosed index is not below the number of attributes.
    IndexOutOfRange,
    /// The disclosed indices are not strictly ascending.
    IndicesNotAscending,
    /// The disclosed leaves and their indices differ in number.
    LengthMismatch,
}

/// `log2_of(n)` is the number of halvings that bring `n` down to one.
pub open spec fn log2_of(n: int) -> nat
    decreases n,
{
    if n <= 1 {
        0
    } else {
        1 + log2_of(n / 2)
    }
}

/// A supported number of leaves: a power of two, at least two.
pub open spec fn valid_leaf_count(n: int) -> bool {
    n >= 2 && pow2(log2_of(n)) == n
}

/// Number of columns of the trace for `n` leaves: the hash space and one
/// storage slot per tree level.
pub open spec fn trace_width(n: int) -> int {
    STORAGE_START + DIGEST_WIDTH * log2_of(n)
}

/// Number of rows of the trace for `n` leaves: `n` hash cycles (one per
/// internal node, one for the nonce), doubled to the next power of two so that
/// the closing row falls after them.
pub open spec fn padded_length(n: int) -> int {
    2 * CYCLE_LEN * n
}

/// The row holding the commitment: the last row of the last hash cycle.
pub open spec fn commitment_step(n: int) -> int {
    CYCLE_LEN * n - 1
}

/// The shuffle step after the hash cycle of the tree's root.
pub open spec fn root_step(n: int) -> int {
    CYCLE_LEN * (n - 1) - 1
}

/// Step `t` applies a permutation round.
pub open spec fn is_round_step(n: int, t: int) -> bool {
    0 <= t < commitment_step(n) && t % (CYCLE_LEN as int) < NUM_ROUNDS as int
}

/// Step `t` is the shuffle step before hash cycle `t / CYCLE_LEN + 1` of an
/// internal node (not the root's successor).
pub open spec fn is_inner_shuffle(n: int, t: int) -> bool {
    0 <= t < root_step(n) && t % (CYCLE_LEN as int) == NUM_ROUNDS as int
}

/// The hash cycle that follows the shuffle step `t`.
pub open spec fn next_cycle(t: int) -> int {
    (t + 1) / (CYCLE_LEN as int)
}

/// Step `t` pushes the last result and loads fresh leaves.
pub open spec fn is_push_step(n: int, t: int) -> bool {
    is_inner_shuffle(n, t) && load_kinds(n - 1)[next_cycle(t)]
}

/// Step `t` pops a stored result to pair it with the last one.
pub open spec fn is_pop_step(n: int, t: int) -> bool {
    is_inner_shuffle(n, t) && !load_kinds(n - 1)[next_cycle(t)]
}

/// The leaf pair that hash cycle `c` loads: as many pairs came before it as
/// earlier cycles loaded leaves.
pub open spec fn pair_of_cycle(n: int, c: int) -> int {
    loads_before(load_kinds(n - 1), c)
}

/// `h` is a result the permutation round `round` may give on the sponge state
/// of row `r` at step `t`.
pub open spec fn round_gives<F: Fn(&Vec<Felt>, usize) -> Vec<Felt>>(
    round: F,
    r: Seq<Felt>,
    t: int,
    h: Seq<Felt>,
) -> bool {
    exists|v: Vec<Felt>, out: Vec<Felt>|
        v@ == r.subrange(0, STATE_WIDTH as int) && call_ensures(round, (&v, t as usize), out)
            && out@ == h
}

/// Row `nxt` follows row `cur` at step `t` of the schedule for the leaves
/// `attrs` and the nonce `nonce`.
pub open spec fn step_follows<F: Fn(&Vec<Felt>, usize) -> Vec<Felt>>(
    n: int,
    attrs: Seq<[Felt; DIGEST_WIDTH]>,
    nonce: Seq<Felt>,
    round: F,
    cur: Seq<Felt>,
    nxt: Seq<Felt>,
    t: int,
) -> bool {
    if is_round_step(n, t) {
        exists|h: Seq<Felt>|
            h.len() == HASH_SPACE_WIDTH && round_gives(round, cur, t, h) && nxt
                == row_after_round(cur, h)
    } else if is_push_step(n, t) {
        let p = pair_of_cycle(n, next_cycle(t));
        nxt == row_after_push(cur, attrs[2 * p]@, attrs[2 * p + 1]@)
    } else if is_pop_step(n, t) {
        nxt == row_after_pop(cur)
    } else if t == root_step(n) {
        nxt == row_after_root(cur, nonce)
    } else if t == padded_length(n) - 2 {
        nxt == sentinel_row(trace_width(n) as nat)
    } else {
        nxt == cur
    }
}

/// The rows of a trace as sequences.
pub open spec fn rows_view(rows: Seq<Vec<Felt>>) -> Seq<Seq<Felt>> {
    Seq::new(rows.len(), |i: int| rows[i]@)
}

/// `rows` is the trace of the schedule for `attrs` and `nonce`: its shape, its
/// first row, and each row from the one before.
pub open spec fn is_trace_of<F: Fn(&Vec<Felt>, usize) -> Vec<Felt>>(
    rows: Seq<Seq<Felt>>,
    attrs: Seq<[Felt; DIGEST_WIDTH]>,
    nonce: Seq<Felt>,
    round: F,
) -> bool {
    let n = attrs.len() as int;
    &&& rows.len() == padded_length(n)
    &&& forall|t: int| 0 <= t < rows.len() ==> (#[trigger] rows[t]).len() == trace_width(n)
    &&& rows[0] == first_row(attrs[0]@, attrs[1]@, trace_width(n) as nat)
    &&& forall|t: int|
        0 <= t < rows.len() - 1 ==> step_follows(
            n,
            attrs,
            nonce,
            round,
            #[trigger] rows[t],
            rows[t + 1],
            t,
        )
}

/// Whether the disclosed indices are strictly ascending and below `n`.
pub open spec fn indices_in_range(idx: Seq<usize>, n: int) -> bool {
    forall|i: int| 0 <= i < idx.len() ==> idx[i] < n
}

pub open spec fn indices_ascending(idx: Seq<usize>) -> bool {
    forall|i: int| 0 <= i < idx.len() - 1 ==> #[trigger] idx[i] < idx[i + 1]
}

/// The inputs are accepted: a supported number of leaves and strictly ascending
/// disclosed indices below it.
pub open spec fn inputs_valid(n: int, idx: Seq<usize>) -> bool {
    valid_leaf_count(n) && indices_in_range(idx, n) && indices_ascending(idx)
}

/// The first fault of the inputs, in the order of the checks: the number of
/// leaves, the range of the disclosed indices, their order.
pub open spec fn input_error(n: int, idx: Seq<usize>) -> Option<InputError> {
    if !valid_leaf_count(n) {
        Some(InputError::InvalidAttributeCount)
    } else if !indices_in_range(idx, n) {
        Some(InputError::IndexOutOfRange)
    } else if !indices_ascending(idx) {
        Some(InputError::IndicesNotAscending)
    } else {
        None
    }
}

/// The number of leaves `n`, with its base-two logarithm, or the refusal.
pub fn leaf_levels(n: usize) -> (r: Option<usize>)
    ensures
        r is Some <==> valid_leaf_count(n as int),
        r is Some ==> r->0 == log2_of(n as int) && r->0 >= 1 && r->0 < 64,
{
    let mut m: usize = n;
    let mut h: usize = 0;
    proof {
        vstd::arithmetic::power2::lemma2_to64();
    }
    while m > 1 && m % 2 == 0
        invariant
            log2_of(n as int) == h + log2_of(m as int),
            n as int == pow2(h as nat) * m,
            h < 64,
            m >= 1 || n == 0,
        decreases m,
    {
        proof {
            lemma_pow2_unfold((h + 1) as nat);
            assert(n as int == pow2((h + 1) as nat) * (m / 2)) by (nonlinear_arith)
                requires
                    n as int == pow2(h as nat) * m,
                    pow2((h + 1) as nat) == 2 * pow2(h as nat),
                    m % 2 == 0,
            ;
            if h + 1 >= 64 {
                vstd::arithmetic::power2::lemma2_to64();
                assert(false) by (nonlinear_arith)
                    requires
                        n as int == pow2((h + 1) as nat) * (m / 2),
                        m / 2 >= 1,
                        pow2((h + 1) as nat) >= pow2(64),
                        pow2(64) == 0x10000000000000000,
                        n <= usize::MAX,
                ;
            }
        }
        m = m / 2;
        h = h + 1;
    }
    if m == 1 && h >= 1 {
        proof {
            assert(log2_of(1) == 0);
        }
        Some(h)
    } else {
        proof {
            if n >= 2 && pow2(log2_of(n as int)) == n {
                lemma_not_power(n as int, h as nat, m as int);
            }
        }
        None
    }
}

/// `pow2(h) * m` with `m` odd and above one, or zero, is not a power of two of
/// its own logarithm.
proof fn lemma_not_power(n: int, h: nat, m: int)
    requires
        n >= 2,
        n == pow2(h) * m,
        log2_of(n) == h + log2_of(m),
        !(m > 1 && m % 2 == 0),
        !(m == 1 && h >= 1),
    ensures
        pow2(log2_of(n)) != n,
{
    vstd::arithmetic::power2::lemma_pow2_pos(h);
    if m == 1 {
        assert(h == 0);
        assert(n == 1) by { vstd::arithmetic::power2::lemma2_to64(); }
    } else {
        assert(m > 1 && m % 2 == 1) by (nonlinear_arith)
            requires
                n == pow2(h) * m,
                n >= 2,
                pow2(h) > 0,
                m != 1,
                !(m > 1 && m % 2 == 0),
        ;
        let k = log2_of(m);
        assert(k >= 1);
        vstd::arithmetic::power2::lemma_pow2_adds(h, k);
        lemma_pow2_unfold(k);
        if pow2(log2_of(n)) == n {
            assert(pow2(h) * pow2(k) == pow2(h) * m);
            vstd::arithmetic::mul::lemma_mul_equality_converse(pow2(h) as int, pow2(k) as int, m);
            assert(false);
        }
    }
}

/// The position of `c` in `steps`, if it occurs there.
pub(crate) fn find_step(steps: &Vec<usize>, c: usize) -> (r: Option<usize>)
    ensures
        r is Some ==> r->0 < steps@.len() && steps@[r->0 as int] == c,
        r is None ==> !steps@.contains(c),
{
    let mut i: usize = 0;
    while i < steps.len()
        invariant
            i <= steps@.len(),
            forall|j: int| 0 <= j < i ==> steps@[j] != c,
        decreases steps@.len() - i,
    {
        if steps[i] == c {
            return Some(i);
        }
        i = i + 1;
    }
    None
}

/// The prover's inputs: all leaves, the disclosed indices, the commitment and
/// the blinding nonce.
pub struct MerkleProver {
    pub options: ProofOptions,
    pub attributes: Vec<[Felt; DIGEST_WIDTH]>,
    pub disclosed_indices: Vec<usize>,
    pub comm: [Felt; RATE_WIDTH],
    pub nonce: [Felt; DIGEST_WIDTH],
}

impl MerkleProver {
    pub fn new(
        options: ProofOptions,
        attributes: Vec<[Felt; DIGEST_WIDTH]>,
        disclosed_indices: Vec<usize>,
        comm: [Felt; RATE_WIDTH],
        nonce: [Felt; DIGEST_WIDTH],
    ) -> (r: Self)
        ensures
            r.options == options,
            r.attributes == attributes,
            r.disclosed_indices == disclosed_indices,
            r.comm == comm,
            r.nonce == nonce,
    {
        Self { options, attributes, disclosed_indices, comm, nonce }
    }

    pub fn options(&self) -> (r: &ProofOptions)
        ensures
            *r == self.options,
    {
        &self.options
    }

    /// Checks the inputs: the number of leaves first, then the range of the
    /// disclosed indices, then their order.
    pub fn validate(&self) -> (r: Result<(), InputError>)
        ensures
            r is Ok <==> input_error(self.attributes@.len() as int, self.disclosed_indices@) is None,
            r is Err ==> r == Err::<(), InputError>(
                input_error(self.attributes@.len() as int, self.disclosed_indices@)->0,
            ),
    {
        let n = self.attributes.len();
        if leaf_levels(n).is_none() {
            return Err(InputError::InvalidAttributeCount);
        }
        let idx = &self.disclosed_indices;
        let mut i: usize = 0;
        while i < idx.len()
            invariant
                i <= idx@.len(),
                n == self.attributes@.len(),
                idx@ == self.disclosed_indices@,
                valid_leaf_count(n as int),
                forall|j: int| 0 <= j < i ==> idx@[j] < n,
            decreases idx@.len() - i,
        {
            if idx[i] >= n {
                assert(!indices_in_range(idx@, n as int)) by {
                    assert(idx@[i as int] >= n);
                }
                return Err(InputError::IndexOutOfRange);
            }
            i = i + 1;
        }
        let mut i: usize = 1;
        while i < idx.len()
            invariant
                1 <= i,
                n == self.attributes@.len(),
                idx@ == self.disclosed_indices@,
                valid_leaf_count(n as int),
                indices_in_range(idx@, n as int),
                forall|j: int| 0 <= j < i - 1 && j < idx@.len() - 1 ==> #[trigger] idx@[j] < idx@[j + 1],
            decreases idx@.len() - i,
        {
            if idx[i - 1] >= idx[i] {
                assert(!indices_ascending(idx@)) by {
                    assert(idx@[i - 1] >= idx@[(i - 1) + 1]);
                }
                return Err(InputError::IndicesNotAscending);
            }
            i = i + 1;
        }
        Ok(())
    }

    /// Builds the trace of the hashing schedule: `padded_length(n)` rows of
    /// `trace_width(n)` columns for `n` leaves, each row derived from the one
    /// before by a permutation round (through `round`, which maps a sponge
    /// state to the next three shadow copies), a storage push or pop, the
    /// entry of the nonce after the root, or, past the last hash cycle, a copy
    /// and the closing row. The bound on the number of leaves keeps the
    /// trace's row count within `usize`.
    pub fn build_trace<F: Fn(&Vec<Felt>, usize) -> Vec<Felt>>(&self, round: F) -> (r: Result<
        Vec<Vec<Felt>>,
        InputError,
    >)
        requires
            self.attributes@.len() <= usize::MAX / 32,
            forall|v: &Vec<Felt>, t: usize| call_requires(round, (v, t)),
            forall|v: &Vec<Felt>, t: usize, h: Vec<Felt>|
                call_ensures(round, (v, t), h) ==> h@.len() == HASH_SPACE_WIDTH,
        ensures
            r is Ok <==> input_error(self.attributes@.len() as int, self.disclosed_indices@) is None,
            r is Err ==> r->Err_0 == input_error(
                self.attributes@.len() as int,
                self.disclosed_indices@,
            )->0,
            r is Ok ==> is_trace_of(rows_view(r->Ok_0@), self.attributes@, self.nonce@, round),
    {
        match self.validate() {
            Err(e) => {
                return Err(e);
            },
            Ok(()) => {},
        }
        let n = self.attributes.len();
        let h = match leaf_levels(n) {
            Some(h) => h,
            None => {
                return Err(InputError::InvalidAttributeCount);
            },
        };
        let width: usize = STORAGE_START + DIGEST_WIDTH * h;
        assert(2 * CYCLE_LEN * n <= usize::MAX) by {
            assert(n <= usize::MAX / 32);
        }
        let padded: usize = 2 * CYCLE_LEN * n;
        let commit: usize = CYCLE_LEN * n - 1;
        let root: usize = CYCLE_LEN * (n - 1) - 1;
        let steps = leaf_steps_in_postorder(n - 1);
        let ghost ks = load_kinds(n - 1);
        let ghost attrs = self.attributes@;
        let ghost nonce = self.nonce@;
        proof {
            lemma_load_kinds_perfect(h as nat);
            lemma_tree_kinds(h as nat);
            lemma_true_positions(ks);
            lemma_pow2_unfold(h as nat);
            assert(width == trace_width(n as int));
        }
        let mut rows: Vec<Vec<Felt>> = Vec::new();
        rows.push(first_row_of(&self.attributes[0], &self.attributes[1], width));
        let mut t: usize = 0;
        while t + 1 < padded
            invariant
                n == attrs.len(),
                attrs == self.attributes@,
                nonce == self.nonce@,
                valid_leaf_count(n as int),
                n <= usize::MAX / 32,
                h >= 1,
                width == trace_width(n as int),
                width >= STORAGE_START + DIGEST_WIDTH,
                padded == padded_length(n as int),
                commit == commitment_step(n as int),
                root == root_step(n as int),
                ks == load_kinds(n - 1),
                ks.len() == n - 1,
                steps@ == leaf_steps(n - 1),
                steps@.len() * 2 == n,
                forall|p: int|
                    0 <= p < steps@.len() ==> #[trigger] steps@[p] < ks.len() && ks[steps@[p] as int]
                        && loads_before(ks, steps@[p] as int) == p,
                forall|v: &Vec<Felt>, t: usize| call_requires(round, (v, t)),
                forall|v: &Vec<Felt>, t: usize, h: Vec<Felt>|
                    call_ensures(round, (v, t), h) ==> h@.len() == HASH_SPACE_WIDTH,
                1 <= rows@.len() == t + 1 <= padded,
                forall|s: int| 0 <= s < rows@.len() ==> (#[trigger] rows@[s])@.len() == width,
                rows@[0]@ == first_row(attrs[0]@, attrs[1]@, width as nat),
                forall|s: int|
                    0 <= s < t ==> step_follows(
                        n as int,
                        attrs,
                        nonce,
                        round,
                        #[trigger] rows_view(rows@)[s],
                        rows_view(rows@)[s + 1],
                        s,
                    ),
            decreases padded - t,
        {
            let ghost cur = rows@[t as int]@;
            let next: Vec<Felt>;
            if t < commit && t % CYCLE_LEN < NUM_ROUNDS {
                let st = state_of(&rows[t]);
                let hs = round(&st, t);
                proof {
                    assert(round_gives(round, cur, t as int, hs@));
                }
                next = round_row(&rows[t], &hs);
                proof {
                    assert(step_follows(n as int, attrs, nonce, round, cur, next@, t as int));
                }
            } else if t < root && t % CYCLE_LEN == NUM_ROUNDS {
                let c1 = (t + 1) / CYCLE_LEN;
                assert(c1 < ks.len());
                proof {
                    lemma_true_positions_member(ks, c1 as int);
                }
                match find_step(&steps, c1) {
                    Some(p) => {
                        assert(steps@[p as int] == c1);
                        next = push_row(&rows[t], &self.attributes[2 * p], &self.attributes[2 * p + 1]);
                        proof {
                            assert(is_push_step(n as int, t as int));
                            assert(pair_of_cycle(n as int, next_cycle(t as int)) == p);
                        }
                    },
                    None => {
                        next = pop_row(&rows[t]);
                        proof {
                            assert(is_pop_step(n as int, t as int));
                        }
                    },
                }
            } else if t == root {
                next = root_row(&rows[t], &self.nonce);
            } else if t + 2 == padded {
                next = sentinel_row_of(width);
            } else {
                next = rows[t].clone();
                assert(next@ =~= cur);
            }
            assert(step_follows(n as int, attrs, nonce, round, cur, next@, t as int));
            let ghost old_rows = rows@;
            rows.push(next);
            proof {
                assert forall|s: int| 0 <= s < t + 1 implies step_follows(
                    n as int,
                    attrs,
                    nonce,
                    round,
                    #[trigger] rows_view(rows@)[s],
                    rows_view(rows@)[s + 1],
                    s,
                ) by {
                    assert(rows_view(rows@)[s] == rows_view(old_rows)[s] || s == t);
                    if s < t {
                        assert(rows_view(rows@)[s] == rows_view(old_rows)[s]);
                        assert(rows_view(rows@)[s + 1] == rows_view(old_rows)[s + 1]);
                    } else {
                        assert(rows_view(rows@)[s] == cur);
                        assert(rows_view(rows@)[s + 1] == next@);
                    }
                }
            }
            t = t + 1;
        }
        proof {
            let rv = rows_view(rows@);
            assert forall|s: int| 0 <= s < rv.len() implies (#[trigger] rv[s]).len() == trace_width(
                n as int,
            ) by {
                assert(rv[s] == rows@[s]@);
            }
            assert(rv[0] == rows@[0]@);
        }
        Ok(rows)
    }

    /// The public inputs of this proof: the disclosed leaves, their indices,
    /// the number of leaves, the commitment and the nonce.
    pub fn get_pub_inputs(&self) -> (r: Result<PublicInputs, InputError>)
        ensures
            r is Ok <==> input_error(self.attributes@.len() as int, self.disclosed_indices@) is None,
            r is Err ==> r->Err_0 == input_error(
                self.attributes@.len() as int,
                self.disclosed_indices@,
            )->0,
            r is Ok ==> {
                let pi = r->Ok_0;
                &&& pi.indices@ == self.disclosed_indices@
                &&& pi.num_of_attributes == self.attributes@.len()
                &&& pi.comm == self.comm
                &&& pi.nonce == self.nonce
                &&& pi.disclosed_attributes@.len() == self.disclosed_indices@.len()
                &&& forall|j: int|
                    0 <= j < self.disclosed_indices@.len() ==> #[trigger] pi.disclosed_attributes@[j]
                        == self.attributes@[self.disclosed_indices@[j] as int]
            },
    {
        match self.validate() {
            Err(e) => {
                return Err(e);
            },
            Ok(()) => {},
        }
        let idx = &self.disclosed_indices;
        let mut disclosed: Vec<[Felt; DIGEST_WIDTH]> = Vec::new();
        let mut j: usize = 0;
        while j < idx.len()
            invariant
                idx@ == self.disclosed_indices@,
                indices_in_range(idx@, self.attributes@.len() as int),
                j <= idx@.len(),
                disclosed@.len() == j,
                forall|i: int|
                    0 <= i < j ==> #[trigger] disclosed@[i] == self.attributes@[idx@[i] as int],
            decreases idx@.len() - j,
        {
            disclosed.push(self.attributes[idx[j]]);
            j = j + 1;
        }
        let mut indices: Vec<usize> = Vec::new();
        let mut j: usize = 0;
        while j < idx.len()
            invariant
                j <= idx@.len(),
                indices@ == idx@.subrange(0, j as int),
            decreases idx@.len() - j,
        {
            indices.push(idx[j]);
            j = j + 1;
            assert(indices@ =~= idx@.subrange(0, j as int));
        }
        assert(indices@ =~= idx@);
        Ok(
            PublicInputs {
                disclosed_attributes: disclosed,
                indices,
                num_of_attributes: self.attributes.len(),
                comm: self.comm,
                nonce: self.nonce,
            },
        )
    }
}

} // verus!
