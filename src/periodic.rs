//! The periodic columns: public 0/1 vectors, one value per step, that switch
//! the transition constraints on and off.
use crate::field::Felt;
use crate::layout::{CYCLE_LEN, NUM_ROUNDS};
use crate::schedule::{
    lemma_load_kinds_perfect, lemma_tree_kinds, lemma_true_positions,
    lemma_true_positions_member, leaf_steps, leaf_steps_in_postorder, load_kinds,
};
use crate::trace::{
    find_step, is_pop_step, is_push_step, is_round_step, leaf_levels, root_step,
    valid_leaf_count,
};
use vstd::prelude::*;

verus! {

/// The field element one where `b` holds, zero elsewhere.
pub open spec fn flag(b: bool) -> Felt {
    if b {
        Felt::spec_one()
    } else {
        Felt::spec_zero()
    }
}

/// The periodic values at step `t` for `n` leaves: round flag, push flag, pop
/// flag, root-copy flag.
pub open spec fn periodic_values_at(n: int, t: int) -> Seq<Felt> {
    seq![
        flag(is_round_step(n, t)),
        flag(is_push_step(n, t)),
        flag(is_pop_step(n, t)),
        flag(t == root_step(n)),
    ]
}

fn flag_of(b: bool) -> (r: Felt)
    ensures
        r == flag(b),
{
    if b {
        Felt::one()
    } else {
        Felt::zero()
    }
}

/// One on the round steps of the `n` hash cycles, zero on their shuffle steps
/// and after them.
pub fn get_hashmask_constants(padded_trace_length: usize, num_of_attributes: usize) -> (r: Vec<Felt>)
    requires
        num_of_attributes <= usize::MAX / 32,
    ensures
        r@.len() == padded_trace_length,
        forall|t: int|
            0 <= t < padded_trace_length ==> #[trigger] r@[t] == flag(
                is_round_step(num_of_attributes as int, t),
            ),
{
    let end: usize = CYCLE_LEN * num_of_attributes;
    let mut r: Vec<Felt> = Vec::new();
    let mut t: usize = 0;
    while t < padded_trace_length
        invariant
            end == CYCLE_LEN * num_of_attributes,
            t <= padded_trace_length,
            r@.len() == t,
            forall|s: int| 0 <= s < t ==> #[trigger] r@[s] == flag(is_round_step(num_of_attributes as int, s)),
        decreases padded_trace_length - t,
    {
        r.push(flag_of(t + 1 < end && t % CYCLE_LEN < NUM_ROUNDS));
        t = t + 1;
    }
    r
}

/// One on the shuffle steps that push the last result to storage because the
/// next hash cycle loads fresh leaves.
pub fn get_move_to_storage_constants(padded_trace_length: usize, num_of_attributes: usize) -> (r: Vec<
    Felt,
>)
    requires
        valid_leaf_count(num_of_attributes as int),
        num_of_attributes <= usize::MAX / 32,
    ensures
        r@.len() == padded_trace_length,
        forall|t: int|
            0 <= t < padded_trace_length ==> #[trigger] r@[t] == flag(
                is_push_step(num_of_attributes as int, t),
            ),
{
    storage_flags(padded_trace_length, num_of_attributes, true)
}

/// One on the shuffle steps that pop a stored result because the next hash
/// cycle combines two results.
pub fn get_move_from_storage_constants(padded_trace_length: usize, num_of_attributes: usize) -> (r: Vec<
    Felt,
>)
    requires
        valid_leaf_count(num_of_attributes as int),
        num_of_attributes <= usize::MAX / 32,
    ensures
        r@.len() == padded_trace_length,
        forall|t: int|
            0 <= t < padded_trace_length ==> #[trigger] r@[t] == flag(
                is_pop_step(num_of_attributes as int, t),
            ),
{
    storage_flags(padded_trace_length, num_of_attributes, false)
}

/// The push flags (`push`) or the pop flags (`!push`).
fn storage_flags(padded_trace_length: usize, n: usize, push: bool) -> (r: Vec<Felt>)
    requires
        valid_leaf_count(n as int),
        n <= usize::MAX / 32,
    ensures
        r@.len() == padded_trace_length,
        forall|t: int|
            0 <= t < padded_trace_length ==> #[trigger] r@[t] == flag(
                if push {
                    is_push_step(n as int, t)
                } else {
                    is_pop_step(n as int, t)
                },
            ),
{
    let h = match leaf_levels(n) {
        Some(h) => h,
        None => {
            return Vec::new();
        },
    };
    let steps = leaf_steps_in_postorder(n - 1);
    let ghost ks = load_kinds(n - 1);
    proof {
        lemma_load_kinds_perfect(h as nat);
        lemma_tree_kinds(h as nat);
        lemma_true_positions(ks);
    }
    let root: usize = CYCLE_LEN * (n - 1) - 1;
    let mut r: Vec<Felt> = Vec::new();
    let mut t: usize = 0;
    while t < padded_trace_length
        invariant
            valid_leaf_count(n as int),
            n <= usize::MAX / 32,
            root == root_step(n as int),
            ks == load_kinds(n - 1),
            ks.len() == n - 1,
            steps@ == leaf_steps(n - 1),
            t <= padded_trace_length,
            r@.len() == t,
            forall|s: int|
                0 <= s < t ==> #[trigger] r@[s] == flag(
                    if push {
                        is_push_step(n as int, s)
                    } else {
                        is_pop_step(n as int, s)
                    },
                ),
        decreases padded_trace_length - t,
    {
        let mut on = false;
        if t < root && t % CYCLE_LEN == NUM_ROUNDS {
            let c1 = (t + 1) / CYCLE_LEN;
            proof {
                lemma_true_positions_member(ks, c1 as int);
            }
            let loads = find_step(&steps, c1).is_some();
            on = loads == push;
        }
        r.push(flag_of(on));
        t = t + 1;
    }
    r
}

/// One on the shuffle step that follows the hash cycle of the tree's root.
pub fn get_merkle_root_copy_constants(padded_trace_length: usize, num_of_attributes: usize) -> (r: Vec<
    Felt,
>)
    requires
        2 <= num_of_attributes <= usize::MAX / 32,
    ensures
        r@.len() == padded_trace_length,
        forall|t: int|
            0 <= t < padded_trace_length ==> #[trigger] r@[t] == flag(
                t == root_step(num_of_attributes as int),
            ),
{
    let root: usize = CYCLE_LEN * (num_of_attributes - 1) - 1;
    let mut r: Vec<Felt> = Vec::new();
    let mut t: usize = 0;
    while t < padded_trace_length
        invariant
            root == root_step(num_of_attributes as int),
            t <= padded_trace_length,
            r@.len() == t,
            forall|s: int|
                0 <= s < t ==> #[trigger] r@[s] == flag(s == root_step(num_of_attributes as int)),
        decreases padded_trace_length - t,
    {
        r.push(flag_of(t == root));
        t = t + 1;
    }
    r
}

} // verus!
