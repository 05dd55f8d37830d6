use merklepf::air::{Assertion, MerkleAir, PublicInputs};
use merklepf::field::{Felt, MODULUS};
use merklepf::layout::{DIGEST_WIDTH, HASH_SPACE_WIDTH, RATE_WIDTH, STATE_WIDTH, STORAGE_START};
use merklepf::periodic::{
    get_hashmask_constants, get_merkle_root_copy_constants, get_move_from_storage_constants,
    get_move_to_storage_constants,
};
use merklepf::schedule::{leaf_steps_in_postorder, postorder_traversal};
use merklepf::trace::{InputError, MerkleProver};
use winterfell::{FieldExtension, HashFunction, ProofOptions};

fn options() -> ProofOptions {
    ProofOptions::new(48, 4, 20, HashFunction::Blake3_256, FieldExtension::Cubic, 8, 128)
}

/// Round constants of a stand-in permutation: one row per step of a cycle.
fn ark_table() -> Vec<Vec<Felt>> {
    (0..8u32)
        .map(|k| (0..HASH_SPACE_WIDTH as u32).map(|m| Felt::new(k * 131 + m * 7 + 1)).collect())
        .collect()
}

/// One stand-in round on a sponge state: a cube, a neighbour and a constant.
fn toy_step(from: &[Felt], ark: &[Felt]) -> Vec<Felt> {
    (0..STATE_WIDTH)
        .map(|i| from[i].mul(&from[i]).mul(&from[i]).add(&from[(i + 1) % STATE_WIDTH]).add(&ark[i]))
        .collect()
}

/// The stand-in round of a step: three chained rounds, giving copies 2, 1, 0.
fn toy_round(state: &Vec<Felt>, step: usize) -> Vec<Felt> {
    let table = ark_table();
    let ark = &table[step % 8];
    let c2 = toy_step(state, &ark[0..STATE_WIDTH]);
    let c1 = toy_step(&c2, &ark[STATE_WIDTH..2 * STATE_WIDTH]);
    let c0 = toy_step(&c1, &ark[2 * STATE_WIDTH..3 * STATE_WIDTH]);
    [c0, c1, c2].concat()
}

/// The one-round check matching `toy_step`: per lane, `to` minus the round.
fn toy_check(from: &Vec<Felt>, to: &Vec<Felt>, ark: &Vec<Felt>) -> Vec<Felt> {
    let e = toy_step(from, ark);
    (0..STATE_WIDTH).map(|i| to[i].sub(&e[i])).collect()
}

fn leaf(seed: u32) -> [Felt; DIGEST_WIDTH] {
    let mut a = [Felt::zero(); DIGEST_WIDTH];
    for (k, x) in a.iter_mut().enumerate() {
        *x = Felt::new(seed * 100 + k as u32 + 1);
    }
    a
}

fn leaves(n: u32) -> Vec<[Felt; DIGEST_WIDTH]> {
    (0..n).map(|i| leaf(i + 1)).collect()
}

fn nonce() -> [Felt; DIGEST_WIDTH] {
    leaf(77)
}

fn prover(attrs: Vec<[Felt; DIGEST_WIDTH]>, idx: Vec<usize>, comm: [Felt; RATE_WIDTH]) -> MerkleProver {
    MerkleProver::new(options(), attrs, idx, comm, nonce())
}

fn build(attrs: Vec<[Felt; DIGEST_WIDTH]>) -> Vec<Vec<Felt>> {
    prover(attrs, vec![0], [Felt::zero(); RATE_WIDTH]).build_trace(toy_round).unwrap()
}

fn commitment_of(rows: &[Vec<Felt>], n: usize) -> [Felt; RATE_WIDTH] {
    let mut c = [Felt::zero(); RATE_WIDTH];
    c.copy_from_slice(&rows[8 * n - 1][0..RATE_WIDTH]);
    c
}

fn all_hold(rows: &[Vec<Felt>], assertions: &[Assertion]) -> bool {
    assertions.iter().all(|a| rows[a.step][a.column] == a.value)
}

fn air_for(rows: &[Vec<Felt>], pi: PublicInputs) -> MerkleAir {
    MerkleAir::new(rows.len(), rows[0].len(), pi)
}

fn ones(v: &[Felt]) -> Vec<usize> {
    v.iter().enumerate().filter(|(_, f)| f.value == 1).map(|(i, _)| i).collect()
}

#[test]
fn field_arithmetic() {
    let a = Felt::new(5);
    let b = Felt::new(7);
    assert_eq!(a.sub(&b).value, MODULUS - 2);
    assert_eq!(a.add(&b).value, 12);
    assert_eq!(Felt::new(MODULUS - 1).mul(&Felt::new(2)).value, MODULUS - 2);
    assert_eq!(Felt::new(MODULUS + 3).value, 3);
    assert!(Felt::new(MODULUS).is_zero());
}

#[test]
fn postorder_of_three_nodes() {
    assert_eq!(postorder_traversal(1, &[1, 2, 3]), vec![2, 3, 1]);
    assert_eq!(postorder_traversal(1, &[1, 2, 3, 4, 5, 6, 7]), vec![4, 5, 2, 6, 7, 3, 1]);
    assert_eq!(postorder_traversal(4, &[1, 2, 3]), Vec::<usize>::new());
}

#[test]
fn leaf_steps_for_four_leaves() {
    // Leaves 0,1 are hashed in cycle 0, leaves 2,3 in cycle 1, and the two
    // results are combined last, in cycle 2.
    assert_eq!(leaf_steps_in_postorder(3), vec![0, 1]);
    assert_eq!(leaf_steps_in_postorder(1), vec![0]);
    assert_eq!(leaf_steps_in_postorder(7), vec![0, 1, 3, 4]);
}

#[test]
fn hashmask_for_two_leaves() {
    let m = get_hashmask_constants(32, 2);
    assert_eq!(m.len(), 32);
    assert_eq!(ones(&m), vec![0, 1, 2, 3, 4, 5, 6, 8, 9, 10, 11, 12, 13, 14]);
}

#[test]
fn storage_flags_for_eight_leaves() {
    assert_eq!(ones(&get_move_to_storage_constants(128, 8)), vec![7, 23, 31]);
    assert_eq!(ones(&get_move_from_storage_constants(128, 8)), vec![15, 39, 47]);
    assert_eq!(ones(&get_merkle_root_copy_constants(128, 8)), vec![55]);
    assert_eq!(ones(&get_merkle_root_copy_constants(64, 4)), vec![23]);
    assert!(ones(&get_move_to_storage_constants(32, 2)).is_empty());
    assert!(ones(&get_move_from_storage_constants(32, 2)).is_empty());
}

#[test]
fn invalid_inputs_are_refused() {
    let p = prover(leaves(3), vec![0], [Felt::zero(); RATE_WIDTH]);
    assert_eq!(p.validate(), Err(InputError::InvalidAttributeCount));
    assert_eq!(p.build_trace(toy_round).err(), Some(InputError::InvalidAttributeCount));
    let p = prover(leaves(1), vec![0], [Felt::zero(); RATE_WIDTH]);
    assert_eq!(p.validate(), Err(InputError::InvalidAttributeCount));
    let p = prover(leaves(4), vec![4], [Felt::zero(); RATE_WIDTH]);
    assert_eq!(p.validate(), Err(InputError::IndexOutOfRange));
    assert_eq!(p.get_pub_inputs().err(), Some(InputError::IndexOutOfRange));
    let p = prover(leaves(4), vec![2, 1], [Felt::zero(); RATE_WIDTH]);
    assert_eq!(p.validate(), Err(InputError::IndicesNotAscending));
    let p = prover(leaves(4), vec![1, 1], [Felt::zero(); RATE_WIDTH]);
    assert_eq!(p.validate(), Err(InputError::IndicesNotAscending));
    let pi = PublicInputs {
        disclosed_attributes: vec![leaf(1)],
        indices: vec![0, 1],
        num_of_attributes: 4,
        comm: [Felt::zero(); RATE_WIDTH],
        nonce: nonce(),
    };
    assert_eq!(pi.validate(), Err(InputError::LengthMismatch));
}

#[test]
fn trace_shape_for_two_leaves() {
    let rows = build(leaves(2));
    assert_eq!(rows.len(), 32);
    assert!(rows.iter().all(|r| r.len() == STORAGE_START + DIGEST_WIDTH));
    assert_eq!(&rows[0][0..DIGEST_WIDTH], &leaf(1)[..]);
    assert_eq!(&rows[0][DIGEST_WIDTH..2 * DIGEST_WIDTH], &leaf(2)[..]);
    // The nonce enters after the tree's root, beside it.
    assert_eq!(&rows[8][DIGEST_WIDTH..2 * DIGEST_WIDTH], &nonce()[..]);
    assert_eq!(&rows[8][0..DIGEST_WIDTH], &rows[7][0..DIGEST_WIDTH]);
    // The last row is the closing row.
    assert!(rows[31].iter().all(|f| f.value == 123));
    // Rows after the last cycle copy its result.
    assert_eq!(rows[16], rows[15]);
    assert_eq!(rows[30], rows[15]);
    // Round steps apply the round to the sponge state.
    assert_eq!(&rows[1][0..HASH_SPACE_WIDTH], &toy_round(&rows[0][0..STATE_WIDTH].to_vec(), 0)[..]);
}

#[test]
fn scenario_two_leaves_one_disclosed() {
    let attrs = leaves(2);
    let rows = build(attrs.clone());
    let root = commitment_of(&rows, 2);
    let p = prover(attrs.clone(), vec![0], root);
    let pi = p.get_pub_inputs().unwrap();
    assert_eq!(pi.disclosed_attributes, vec![leaf(1)]);
    assert_eq!(pi.num_of_attributes, 2);
    let air = air_for(&rows, pi);
    let assertions = air.get_assertions();
    assert_eq!(assertions.len(), DIGEST_WIDTH + DIGEST_WIDTH + RATE_WIDTH + 2 * (STATE_WIDTH - RATE_WIDTH));
    assert!(all_hold(&rows, &assertions));

    // Another commitment is refused.
    let mut other = root;
    other[3] = other[3].add(&Felt::one());
    let pi = prover(attrs.clone(), vec![0], other).get_pub_inputs().unwrap();
    assert!(!all_hold(&rows, &air_for(&rows, pi).get_assertions()));

    // Another disclosed leaf is refused although the commitment is right.
    let mut a0 = leaf(1);
    a0[0] = a0[0].add(&Felt::one());
    let pi = PublicInputs {
        disclosed_attributes: vec![a0],
        indices: vec![0],
        num_of_attributes: 2,
        comm: root,
        nonce: nonce(),
    };
    assert!(!all_hold(&rows, &air_for(&rows, pi).get_assertions()));
}

#[test]
fn changed_nonce_or_leaf_breaks_an_assertion() {
    let attrs = leaves(8);
    let rows = build(attrs.clone());
    let root = commitment_of(&rows, 8);
    let idx = vec![1, 4, 6];
    let pi = prover(attrs.clone(), idx.clone(), root).get_pub_inputs().unwrap();
    assert!(all_hold(&rows, &air_for(&rows, pi).get_assertions()));
    for k in [0, 5, 11] {
        let mut n2 = nonce();
        n2[k] = n2[k].add(&Felt::one());
        let pi = PublicInputs {
            disclosed_attributes: vec![attrs[1], attrs[4], attrs[6]],
            indices: idx.clone(),
            num_of_attributes: 8,
            comm: root,
            nonce: n2,
        };
        assert!(!all_hold(&rows, &air_for(&rows, pi).get_assertions()));
    }
    let mut d = attrs[6];
    d[11] = d[11].add(&Felt::one());
    let pi = PublicInputs {
        disclosed_attributes: vec![attrs[1], attrs[4], d],
        indices: idx,
        num_of_attributes: 8,
        comm: root,
        nonce: nonce(),
    };
    assert!(!all_hold(&rows, &air_for(&rows, pi).get_assertions()));
}

#[test]
fn constraints_vanish_on_built_trace() {
    for n in [2u32, 4, 8] {
        let rows = build(leaves(n));
        let pi = prover(leaves(n), vec![0], commitment_of(&rows, n as usize)).get_pub_inputs().unwrap();
        let air = air_for(&rows, pi);
        let periodic = air.get_periodic_column_values(&ark_table());
        assert_eq!(periodic.len(), 4 + HASH_SPACE_WIDTH);
        let degrees = air.transition_degrees();
        for t in 0..rows.len() - 1 {
            let pv: Vec<Felt> = periodic.iter().map(|c| c[t]).collect();
            let r = air.evaluate_transition(&rows[t], &rows[t + 1], &pv, &toy_check);
            assert_eq!(r.len(), degrees.len());
            assert!(r.iter().all(|f| f.is_zero()), "n = {}, step {}", n, t);
        }
    }
}

#[test]
fn tampered_trace_violates_a_constraint() {
    let mut rows = build(leaves(4));
    let pi = prover(leaves(4), vec![0], commitment_of(&rows, 4)).get_pub_inputs().unwrap();
    let air = air_for(&rows, pi);
    let periodic = air.get_periodic_column_values(&ark_table());
    // Step 7 pushes the first result: corrupt the stored copy.
    rows[8][STORAGE_START] = rows[8][STORAGE_START].add(&Felt::one());
    let pv: Vec<Felt> = periodic.iter().map(|c| c[7]).collect();
    let r = air.evaluate_transition(&rows[7], &rows[8], &pv, &toy_check);
    assert!(r.iter().any(|f| !f.is_zero()));
    // Step 3 is a round step: corrupt one lane of copy 1 of its result.
    rows[4][STATE_WIDTH + 5] = rows[4][STATE_WIDTH + 5].add(&Felt::one());
    let pv: Vec<Felt> = periodic.iter().map(|c| c[3]).collect();
    let r = air.evaluate_transition(&rows[3], &rows[4], &pv, &toy_check);
    assert!(r[..HASH_SPACE_WIDTH].iter().any(|f| !f.is_zero()));
}

#[test]
fn trace_is_deterministic() {
    assert_eq!(build(leaves(8)), build(leaves(8)));
}

#[test]
fn capacity_clear_at_cycle_starts() {
    for n in [2usize, 4, 8, 16] {
        let rows = build(leaves(n as u32));
        for c in 0..n {
            assert!(rows[8 * c][RATE_WIDTH..STATE_WIDTH].iter().all(|f| f.value == 0));
        }
    }
}

#[test]
fn storage_never_overflows() {
    for n in [2usize, 4, 8, 16, 32] {
        let rows = build(leaves(n as u32));
        let slots = (rows[0].len() - STORAGE_START) / DIGEST_WIDTH;
        assert_eq!(slots, n.trailing_zeros() as usize);
        for row in rows.iter().take(8 * n) {
            let used = (0..slots)
                .filter(|s| row[STORAGE_START + s * DIGEST_WIDTH..STORAGE_START + (s + 1) * DIGEST_WIDTH].iter().any(|f| f.value != 0))
                .count();
            assert!(used < slots);
        }
    }
}

#[test]
fn merkle_order_of_four_leaves() {
    // The root cycle hashes (H01, H23): H01 is popped into the first digest
    // lanes, H23 stays as the second.
    let rows = build(leaves(4));
    assert_eq!(&rows[16][0..DIGEST_WIDTH], &rows[7][0..DIGEST_WIDTH]);
    assert_eq!(&rows[16][DIGEST_WIDTH..2 * DIGEST_WIDTH], &rows[15][0..DIGEST_WIDTH]);
    // Leaves 2,3 enter at the start of the second cycle.
    assert_eq!(&rows[8][0..DIGEST_WIDTH], &leaf(3)[..]);
    assert_eq!(&rows[8][DIGEST_WIDTH..2 * DIGEST_WIDTH], &leaf(4)[..]);
}

#[test]
fn merkle_order_of_eight_leaves() {
    // Postorder of the internal nodes: 4, 5, 2, 6, 7, 3, 1. Cycle 2 (node 2)
    // hashes the results of cycles 0 and 1, cycle 5 (node 3) those of cycles
    // 3 and 4, cycle 6 (the root) those of cycles 2 and 5; cycle 7 hashes the
    // root beside the nonce.
    let rows = build(leaves(8));
    let result = |c: usize| rows[8 * c + 7][0..DIGEST_WIDTH].to_vec();
    let left = |c: usize| rows[8 * c][0..DIGEST_WIDTH].to_vec();
    let right = |c: usize| rows[8 * c][DIGEST_WIDTH..2 * DIGEST_WIDTH].to_vec();
    assert_eq!((left(2), right(2)), (result(0), result(1)));
    assert_eq!((left(5), right(5)), (result(3), result(4)));
    assert_eq!((left(6), right(6)), (result(2), result(5)));
    assert_eq!((left(7), right(7)), (result(6), nonce().to_vec()));
    for (c, pair) in [(0usize, 0u32), (1, 1), (3, 2), (4, 3)] {
        assert_eq!(left(c), leaf(2 * pair + 1).to_vec());
        assert_eq!(right(c), leaf(2 * pair + 2).to_vec());
    }
}

#[test]
fn degrees_and_round_constant_columns() {
    let rows = build(leaves(4));
    let pi = prover(leaves(4), vec![0], commitment_of(&rows, 4)).get_pub_inputs().unwrap();
    let air = air_for(&rows, pi);
    let degrees = air.transition_degrees();
    let w = rows[0].len();
    assert_eq!(degrees.len(), HASH_SPACE_WIDTH + (w - STORAGE_START) + 5 * DIGEST_WIDTH + 2 * (w - STORAGE_START - DIGEST_WIDTH));
    assert!(degrees[..HASH_SPACE_WIDTH].iter().all(|d| *d == 3));
    assert!(degrees[HASH_SPACE_WIDTH..].iter().all(|d| *d == 1));
    let table = ark_table();
    let periodic = air.get_periodic_column_values(&table);
    assert_eq!(periodic[4 + 17][8 * 2 + 5], table[5][17]);
    assert_eq!(periodic[4 + 104][31], table[7][104]);
    assert_eq!(periodic[4 + 17][32], Felt::zero());
}
