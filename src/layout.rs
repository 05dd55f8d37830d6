//! Register layout of a trace row and the row-to-row moves of the hashing
//! schedule.
//!
//! A row is the hash space (three shadow copies of the permutation state; copy
//! zero is the sponge state, its first `RATE_WIDTH` lanes the rate) followed by
//! the storage region: digest-wide slots forming a stack whose most recent
//! entry sits in slot zero.
use crate::field::Felt;
use vstd::prelude::*;

verus! {

/// Width of the permutation state.
pub const STATE_WIDTH: usize = 35;

/// Number of rate lanes of the sponge state.
pub const RATE_WIDTH: usize = 24;

/// Number of field elements of a digest (and of a leaf, and of the nonce).
pub const DIGEST_WIDTH: usize = 12;

/// Steps of one hash cycle: the permutation rounds, then one shuffle step.
pub const CYCLE_LEN: usize = 8;

/// Steps of a hash cycle that apply a permutation round.
pub const NUM_ROUNDS: usize = 7;

/// Width of the hash space: three shadow copies of the state.
pub const HASH_SPACE_WIDTH: usize = 105;

/// First column of the storage region.
pub const STORAGE_START: usize = 105;

/// Value of every cell of the last row of a trace.
pub const SENTINEL: u32 = 123;

/// The row after a shuffle step into a hash cycle that loads the leaves `a` and
/// `b`: the digest just computed is pushed on storage, the other entries move
/// one slot back, the rate takes the leaves and the capacity is cleared.
pub open spec fn row_after_push(r: Seq<Felt>, a: Seq<Felt>, b: Seq<Felt>) -> Seq<Felt> {
    Seq::new(
        r.len(),
        |i: int|
            if i < DIGEST_WIDTH {
                a[i]
            } else if i < 2 * DIGEST_WIDTH {
                b[i - DIGEST_WIDTH]
            } else if i < STATE_WIDTH {
                Felt::spec_zero()
            } else if i < STORAGE_START {
                r[i]
            } else if i < STORAGE_START + DIGEST_WIDTH {
                r[i - STORAGE_START]
            } else {
                r[i - DIGEST_WIDTH]
            },
    )
}

/// The row after a shuffle step into a hash cycle that combines two results:
/// the most recent storage entry becomes the left input, the digest just
/// computed the right one, the other entries move one slot forward, and the
/// freed last slot and the capacity are cleared.
pub open spec fn row_after_pop(r: Seq<Felt>) -> Seq<Felt> {
    Seq::new(
        r.len(),
        |i: int|
            if i < DIGEST_WIDTH {
                r[STORAGE_START + i]
            } else if i < 2 * DIGEST_WIDTH {
                r[i - DIGEST_WIDTH]
            } else if i < STATE_WIDTH {
                Felt::spec_zero()
            } else if i < STORAGE_START {
                r[i]
            } else if i < r.len() - DIGEST_WIDTH {
                r[i + DIGEST_WIDTH]
            } else {
                Felt::spec_zero()
            },
    )
}

/// The row after the shuffle step that follows the root of the tree: the root
/// stays in the first digest lanes, the nonce enters the second, and the
/// capacity is cleared.
pub open spec fn row_after_root(r: Seq<Felt>, nonce: Seq<Felt>) -> Seq<Felt> {
    Seq::new(
        r.len(),
        |i: int|
            if i < DIGEST_WIDTH {
                r[i]
            } else if i < 2 * DIGEST_WIDTH {
                nonce[i - DIGEST_WIDTH]
            } else if i < STATE_WIDTH {
                Felt::spec_zero()
            } else {
                r[i]
            },
    )
}

/// The row after a round step: the hash space is `h`, storage is kept.
pub open spec fn row_after_round(r: Seq<Felt>, h: Seq<Felt>) -> Seq<Felt> {
    Seq::new(r.len(), |i: int| if i < HASH_SPACE_WIDTH { h[i] } else { r[i] })
}

/// The first row: two leaves in the rate, zero elsewhere.
pub open spec fn first_row(a: Seq<Felt>, b: Seq<Felt>, width: nat) -> Seq<Felt> {
    Seq::new(
        width,
        |i: int|
            if i < DIGEST_WIDTH {
                a[i]
            } else if i < 2 * DIGEST_WIDTH {
                b[i - DIGEST_WIDTH]
            } else {
                Felt::spec_zero()
            },
    )
}

/// The closing row of a trace.
pub open spec fn sentinel_row(width: nat) -> Seq<Felt> {
    Seq::new(width, |i: int| Felt { value: SENTINEL })
}

/// Lanes `[start, start + DIGEST_WIDTH)` of a row.
pub open spec fn digest_at(r: Seq<Felt>, start: int) -> Seq<Felt> {
    r.subrange(start, start + DIGEST_WIDTH)
}

/// Builds the first row: `first_row(a, b, width)`.
pub fn first_row_of(a: &[Felt; DIGEST_WIDTH], b: &[Felt; DIGEST_WIDTH], width: usize) -> (r: Vec<Felt>)
    requires
        width >= STORAGE_START,
    ensures
        r@ == first_row(a@, b@, width as nat),
{
    let mut r: Vec<Felt> = Vec::new();
    let mut i: usize = 0;
    while i < width
        invariant
            i <= width,
            r@ == first_row(a@, b@, width as nat).subrange(0, i as int),
        decreases width - i,
    {
        let v = if i < DIGEST_WIDTH {
            a[i]
        } else if i < 2 * DIGEST_WIDTH {
            b[i - DIGEST_WIDTH]
        } else {
            Felt::zero()
        };
        r.push(v);
        i = i + 1;
        assert(r@ =~= first_row(a@, b@, width as nat).subrange(0, i as int));
    }
    assert(r@ =~= first_row(a@, b@, width as nat));
    r
}

/// Builds `row_after_push(r, a, b)`.
pub fn push_row(r: &Vec<Felt>, a: &[Felt; DIGEST_WIDTH], b: &[Felt; DIGEST_WIDTH]) -> (out: Vec<Felt>)
    requires
        r@.len() >= STORAGE_START + DIGEST_WIDTH,
    ensures
        out@ == row_after_push(r@, a@, b@),
{
    let w = r.len();
    let mut out: Vec<Felt> = Vec::new();
    let mut i: usize = 0;
    while i < w
        invariant
            w == r@.len(),
            i <= w,
            out@ == row_after_push(r@, a@, b@).subrange(0, i as int),
        decreases w - i,
    {
        let v = if i < DIGEST_WIDTH {
            a[i]
        } else if i < 2 * DIGEST_WIDTH {
            b[i - DIGEST_WIDTH]
        } else if i < STATE_WIDTH {
            Felt::zero()
        } else if i < STORAGE_START {
            r[i]
        } else if i < STORAGE_START + DIGEST_WIDTH {
            r[i - STORAGE_START]
        } else {
            r[i - DIGEST_WIDTH]
        };
        out.push(v);
        i = i + 1;
        assert(out@ =~= row_after_push(r@, a@, b@).subrange(0, i as int));
    }
    assert(out@ =~= row_after_push(r@, a@, b@));
    out
}

/// Builds `row_after_pop(r)`.
pub fn pop_row(r: &Vec<Felt>) -> (out: Vec<Felt>)
    requires
        r@.len() >= STORAGE_START + DIGEST_WIDTH,
    ensures
        out@ == row_after_pop(r@),
{
    let w = r.len();
    let mut out: Vec<Felt> = Vec::new();
    let mut i: usize = 0;
    while i < w
        invariant
            w == r@.len(),
            i <= w,
            out@ == row_after_pop(r@).subrange(0, i as int),
            w >= STORAGE_START + DIGEST_WIDTH,
        decreases w - i,
    {
        let v = if i < DIGEST_WIDTH {
            r[STORAGE_START + i]
        } else if i < 2 * DIGEST_WIDTH {
            r[i - DIGEST_WIDTH]
        } else if i < STATE_WIDTH {
            Felt::zero()
        } else if i < STORAGE_START {
            r[i]
        } else if i < w - DIGEST_WIDTH {
            r[i + DIGEST_WIDTH]
        } else {
            Felt::zero()
        };
        out.push(v);
        i = i + 1;
        assert(out@ =~= row_after_pop(r@).subrange(0, i as int));
    }
    assert(out@ =~= row_after_pop(r@));
    out
}

/// Builds `row_after_root(r, nonce)`.
pub fn root_row(r: &Vec<Felt>, nonce: &[Felt; DIGEST_WIDTH]) -> (out: Vec<Felt>)
    requires
        r@.len() >= STORAGE_START,
    ensures
        out@ == row_after_root(r@, nonce@),
{
    let w = r.len();
    let mut out: Vec<Felt> = Vec::new();
    let mut i: usize = 0;
    while i < w
        invariant
            w == r@.len(),
            i <= w,
            out@ == row_after_root(r@, nonce@).subrange(0, i as int),
        decreases w - i,
    {
        let v = if i < DIGEST_WIDTH {
            r[i]
        } else if i < 2 * DIGEST_WIDTH {
            nonce[i - DIGEST_WIDTH]
        } else if i < STATE_WIDTH {
            Felt::zero()
        } else {
            r[i]
        };
        out.push(v);
        i = i + 1;
        assert(out@ =~= row_after_root(r@, nonce@).subrange(0, i as int));
    }
    assert(out@ =~= row_after_root(r@, nonce@));
    out
}

/// Builds `row_after_round(r, h)`.
pub fn round_row(r: &Vec<Felt>, h: &Vec<Felt>) -> (out: Vec<Felt>)
    requires
        r@.len() >= STORAGE_START,
        h@.len() == HASH_SPACE_WIDTH,
    ensures
        out@ == row_after_round(r@, h@),
{
    let w = r.len();
    let mut out: Vec<Felt> = Vec::new();
    let mut i: usize = 0;
    while i < w
        invariant
            w == r@.len(),
            h@.len() == HASH_SPACE_WIDTH,
            i <= w,
            out@ == row_after_round(r@, h@).subrange(0, i as int),
        decreases w - i,
    {
        let v = if i < HASH_SPACE_WIDTH {
            h[i]
        } else {
            r[i]
        };
        out.push(v);
        i = i + 1;
        assert(out@ =~= row_after_round(r@, h@).subrange(0, i as int));
    }
    assert(out@ =~= row_after_round(r@, h@));
    out
}

/// Builds the closing row of `width` cells.
pub fn sentinel_row_of(width: usize) -> (out: Vec<Felt>)
    ensures
        out@ == sentinel_row(width as nat),
{
    let mut out: Vec<Felt> = Vec::new();
    let mut i: usize = 0;
    while i < width
        invariant
            i <= width,
            out@ == sentinel_row(width as nat).subrange(0, i as int),
        decreases width - i,
    {
        out.push(Felt { value: SENTINEL });
        i = i + 1;
        assert(out@ =~= sentinel_row(width as nat).subrange(0, i as int));
    }
    assert(out@ =~= sentinel_row(width as nat));
    out
}

/// The sponge state: the first copy of the hash space.
pub fn state_of(r: &Vec<Felt>) -> (out: Vec<Felt>)
    requires
        r@.len() >= STATE_WIDTH,
    ensures
        out@ == r@.subrange(0, STATE_WIDTH as int),
{
    let mut out: Vec<Felt> = Vec::new();
    let mut i: usize = 0;
    while i < STATE_WIDTH
        invariant
            r@.len() >= STATE_WIDTH,
            i <= STATE_WIDTH,
            out@ == r@.subrange(0, i as int),
        decreases STATE_WIDTH - i,
    {
        out.push(r[i]);
        i = i + 1;
        assert(out@ =~= r@.subrange(0, i as int));
    }
    out
}

} // verus!
