//! The Rule-30 update on a ring of 32 cells, as a function on `u32`.

use vstd::prelude::*;

verus! {

/// Number of cells on the ring.
pub const WIDTH: u32 = 32;

/// Index of the cell that is observed.
pub const CENTER: u32 = 16;

/// Mask that selects the observed cell.
pub const MASK: u32 = 0x0001_0000;

/// `x` rotated left by `n < 32` bits: the bits that leave at the top come
/// back in at the bottom.
pub open spec fn rotl(x: u32, n: u32) -> u32 {
    if n == 0 {
        x
    } else {
        (x << n) | (x >> ((32 - n) as u32))
    }
}

/// `x` rotated right by `n < 32` bits: the bits that leave at the bottom come
/// back in at the top.
pub open spec fn rotr(x: u32, n: u32) -> u32 {
    if n == 0 {
        x
    } else {
        (x >> n) | (x << ((32 - n) as u32))
    }
}

/// Trusted, not proved: `u32::rotate_left` of std shifts the bits left by
/// `n` and puts the bits that were shifted out back in at the low end. The
/// claim is made for shifts below the width only.
pub assume_specification[ <u32>::rotate_left ](x: u32, n: u32) -> (r: u32)
    requires
        n < 32,
    ensures
        r == rotl(x, n),
;

/// Trusted, not proved: `u32::rotate_right` of std shifts the bits right by
/// `n` and puts the bits that were shifted out back in at the high end. The
/// claim is made for shifts below the width only.
pub assume_specification[ <u32>::rotate_right ](x: u32, n: u32) -> (r: u32)
    requires
        n < 32,
    ensures
        r == rotr(x, n),
;

/// Whether cell `i` of `s` is set.
pub open spec fn cell(s: u32, i: int) -> bool {
    (s >> (i as u32)) & 1 == 1
}

/// The ring as a sequence of 32 cells, cell 0 first.
pub open spec fn cells(s: u32) -> Seq<bool> {
    Seq::new(32, |i: int| cell(s, i))
}

/// One Rule-30 step: every cell becomes its lower neighbour XOR (itself OR
/// its upper neighbour), with cell 0 and cell 31 adjacent.
pub open spec fn step(s: u32) -> u32 {
    rotl(s, 1) ^ (s | rotr(s, 1))
}

/// The state after `n` steps from `s`.
pub open spec fn steps(s: u32, n: nat) -> u32
    decreases n,
{
    if n == 0 {
        s
    } else {
        step(steps(s, (n - 1) as nat))
    }
}

/// The rule is local and the ring is closed: after one step, cell `i` holds
/// its lower neighbour XOR (itself OR its upper neighbour), where the lower
/// neighbour of cell 0 is cell 31 and the upper neighbour of cell 31 is cell 0.
pub proof fn lemma_step_is_local(s: u32, i: int)
    requires
        0 <= i < 32,
    ensures
        cell(step(s), i) == (cell(s, (i + 31) % 32) != (cell(s, i) || cell(s, (i + 1) % 32))),
{
    let j: u32 = i as u32;
    let lo: u32 = ((i + 31) % 32) as u32;
    let hi: u32 = ((i + 1) % 32) as u32;
    let t: u32 = ((s << 1u32) | (s >> 31u32)) ^ (s | ((s >> 1u32) | (s << 31u32)));
    assert(step(s) == t);
    assert(((t >> j) & 1 == 1) == (((s >> lo) & 1 == 1) != (((s >> j) & 1 == 1) || ((s >> hi) & 1
        == 1)))) by (bit_vector)
        requires
            j < 32,
            lo == (j + 31) % 32,
            hi == (j + 1) % 32,
            t == ((s << 1u32) | (s >> 31u32)) ^ (s | ((s >> 1u32) | (s << 31u32))),
    ;
}

/// The cells of `s` below cell `k`, the others cleared.
spec fn low_cells(s: u32, k: u32) -> u32 {
    if k >= 32 {
        s
    } else {
        s & (((1u32 << k) - 1) as u32)
    }
}

/// Two states that agree on every cell below `k` have the same low cells.
proof fn lemma_low_cells_agree(a: u32, b: u32, k: u32)
    requires
        k <= 32,
        forall|i: int| 0 <= i < k ==> cell(a, i) == cell(b, i),
    ensures
        low_cells(a, k) == low_cells(b, k),
    decreases k,
{
    if k == 0 {
        assert(a & (((1u32 << 0u32) - 1) as u32) == 0) by (bit_vector);
        assert(b & (((1u32 << 0u32) - 1) as u32) == 0) by (bit_vector);
    } else {
        let j: u32 = (k - 1) as u32;
        lemma_low_cells_agree(a, b, j);
        assert(cell(a, j as int) == cell(b, j as int));
        let la: u32 = low_cells(a, j);
        let lb: u32 = low_cells(b, j);
        assert(low_cells(a, k) == low_cells(b, k)) by (bit_vector)
            requires
                j < 32,
                k == j + 1,
                la == lb,
                la == a & (((1u32 << j) - 1) as u32),
                lb == b & (((1u32 << j) - 1) as u32),
                ((a >> j) & 1 == 1) == ((b >> j) & 1 == 1),
        ;
    }
}

/// A ring is its cells: two states with the same cells are the same state.
pub proof fn lemma_cells_determine_state(a: u32, b: u32)
    requires
        cells(a) == cells(b),
    ensures
        a == b,
{
    assert forall|i: int| 0 <= i < 32 implies cell(a, i) == cell(b, i) by {
        assert(cells(a)[i] == cell(a, i));
        assert(cells(b)[i] == cell(b, i));
    }
    lemma_low_cells_agree(a, b, 32);
}

/// The ring with no cell set stays so for ever.
pub proof fn lemma_zero_is_fixed(n: nat)
    ensures
        steps(0, n) == 0,
    decreases n,
{
    if n > 0 {
        lemma_zero_is_fixed((n - 1) as nat);
        assert(((0u32 << 1u32) | (0u32 >> 31u32)) ^ (0u32 | ((0u32 >> 1u32) | (0u32 << 31u32)))
            == 0u32) by (bit_vector);
    }
}

/// The first `n` states of the run that starts at `s`, `s` itself first.
pub open spec fn trajectory(s: u32, n: nat) -> Seq<u32> {
    Seq::new(n, |i: int| steps(s, i as nat))
}

/// Taking `n + 1` steps is taking one step and then `n` more.
pub proof fn lemma_steps_front(s: u32, n: nat)
    ensures
        steps(s, n + 1) == steps(step(s), n),
    decreases n,
{
    if n > 0 {
        lemma_steps_front(s, (n - 1) as nat);
    } else {
        assert(steps(s, 1) == step(steps(s, 0)));
    }
}

/// Taking `a` steps and then `b` more is taking `a + b` steps.
pub proof fn lemma_steps_add(s: u32, a: nat, b: nat)
    ensures
        steps(steps(s, a), b) == steps(s, a + b),
    decreases b,
{
    if b > 0 {
        lemma_steps_add(s, a, (b - 1) as nat);
    }
}

/// A run passes through its start and then follows the run of the next state.
pub proof fn lemma_trajectory_front(s: u32, n: nat)
    ensures
        trajectory(s, n + 1) == seq![s] + trajectory(step(s), n),
{
    let whole = trajectory(s, n + 1);
    let parts = seq![s] + trajectory(step(s), n);
    assert forall|i: int| 0 <= i < n + 1 implies whole[i] == parts[i] by {
        if i > 0 {
            lemma_steps_front(s, (i - 1) as nat);
        }
    }
    assert(whole =~= parts);
}

} // verus!
