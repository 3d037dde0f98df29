//! The generator: a Rule-30 state and the draws made from it.

use vstd::prelude::*;
use vstd::string::StringExecFns;
use vstd::arithmetic::power2::{pow2, lemma2_to64};
use vstd::arithmetic::div_mod::{lemma_mod_bound, lemma_mod_mod, lemma_small_mod};
use vstd::bits::{lemma_u64_pow2_no_overflow, lemma_u64_shl_is_mul};
use crate::error::R30Error;
use crate::rule::{
    cell, cells, step, steps, trajectory, lemma_cells_determine_state, lemma_steps_add, MASK,
};
use crate::stream::{bits, byte_at, bytes, center_bit, value, lemma_value_bound};

verus! {

/// A Rule-30 generator. Its whole state is the ring of 32 cells in `state`,
/// cell `i` being bit `i`.
#[derive(Clone, Copy, Debug, PartialEq, Eq, Structural)]
pub struct R30 {
    /// The cells of the automaton.
    pub state: u32,
}

impl View for R30 {
    type V = Seq<bool>;

    /// The ring of cells, cell 0 first.
    open spec fn view(&self) -> Seq<bool> {
        cells(self.state)
    }
}

impl R30 {
    /// A generator whose cells are the bits of `seed`. A seed of 0 is legal
    /// but barren: the ring with no cell set never changes, so every bit
    /// drawn from it is clear.
    pub fn new(seed: u32) -> (r: Self)
        ensures
            r.state == seed,
    {
        R30 { state: seed }
    }

    /// A generator in which only the observed cell is set.
    pub fn center() -> (r: Self)
        ensures
            r.state == MASK,
    {
        R30 { state: MASK }
    }

    /// A generator seeded from a clock reading of `secs` seconds: the seed is
    /// the square of `secs`, cut to the 32 low bits.
    pub fn from_time(secs: u64) -> (r: Self)
        ensures
            r.state == time_seed(secs),
    {
        let square: u64 = secs.wrapping_mul(secs);
        let seed: u32 = #[verifier::truncate] (square as u32);
        proof {
            assert(seed == square % 0x1_0000_0000) by (bit_vector)
                requires
                    seed == square as u32,
            ;
            lemma_mod_mod(secs * secs, 0x1_0000_0000, 0x1_0000_0000);
        }
        R30 { state: seed }
    }

    /// Advances the automaton by one step.
    pub fn evolve(&mut self)
        ensures
            final(self).state == step(old(self).state),
    {
        let left: u32 = self.state.rotate_left(1);
        let right: u32 = self.state.rotate_right(1);
        self.state = left ^ (self.state | right);
    }

    /// Reads the observed cell, then advances the automaton by one step.
    pub fn next_bool(&mut self) -> (bit: bool)
        ensures
            bit == center_bit(old(self).state),
            final(self).state == step(old(self).state),
    {
        let bit: bool = (self.state & MASK) != 0;
        self.evolve();
        bit
    }

    /// Draws `n` bits and returns the number they spell, first bit lowest.
    /// Refused, with the generator untouched, when `n` exceeds 64.
    pub fn next_bits(&mut self, n: usize) -> (r: Result<u64, R30Error>)
        ensures
            match r {
                Ok(v) => n <= 64 && v == value(old(self).state, n as nat)
                    && final(self).state == steps(old(self).state, n as nat),
                Err(e) => n > 64 && e == R30Error::BitWidthExceeded
                    && final(self).state == old(self).state,
            },
    {
        if n > 64 {
            return Err(R30Error::BitWidthExceeded);
        }
        Ok(self.draw(n as u32))
    }

    /// Draws 32 bits as a `u32`, first bit lowest.
    pub fn next_u32(&mut self) -> (r: u32)
        ensures
            r == value(old(self).state, 32),
            final(self).state == steps(old(self).state, 32),
    {
        let v: u64 = self.draw(32);
        proof {
            lemma_value_bound(old(self).state, 32);
            lemma2_to64();
        }
        v as u32
    }

    /// Draws 64 bits as a `u64`, first bit lowest.
    pub fn next_u64(&mut self) -> (r: u64)
        ensures
            r == value(old(self).state, 64),
            final(self).state == steps(old(self).state, 64),
    {
        self.draw(64)
    }

    /// Draws 8 bits as a `u8`, first bit lowest.
    pub fn next_u8(&mut self) -> (r: u8)
        ensures
            r == value(old(self).state, 8),
            final(self).state == steps(old(self).state, 8),
    {
        let v: u64 = self.draw(8);
        proof {
            lemma_value_bound(old(self).state, 8);
            lemma2_to64();
        }
        v as u8
    }

    /// Draws 32 bits and reads them as a two's-complement `i32`.
    pub fn next_i32(&mut self) -> (r: i32)
        ensures
            r == signed32(value(old(self).state, 32)),
            final(self).state == steps(old(self).state, 32),
    {
        let v: u32 = self.next_u32();
        let r: i32 = #[verifier::truncate] (v as i32);
        assert(r == (if v < 0x8000_0000u32 {
            v as int
        } else {
            v - 0x1_0000_0000
        })) by (bit_vector)
            requires
                r == v as i32,
        ;
        r
    }

    /// Draws 64 bits and reads them as a two's-complement `i64`.
    pub fn next_i64(&mut self) -> (r: i64)
        ensures
            r == signed64(value(old(self).state, 64)),
            final(self).state == steps(old(self).state, 64),
    {
        let v: u64 = self.next_u64();
        let r: i64 = #[verifier::truncate] (v as i64);
        assert(r == (if v < 0x8000_0000_0000_0000u64 {
            v as int
        } else {
            v - 0x1_0000_0000_0000_0000
        })) by (bit_vector)
            requires
                r == v as i64,
        ;
        r
    }

    /// Draws 64 bits and maps them into `a..=b` by remainder. Refused, with
    /// the generator untouched, when `a > b`.
    pub fn next_u64_in(&mut self, a: u64, b: u64) -> (r: Result<u64, R30Error>)
        ensures
            match r {
                Ok(v) => a <= b && v == reduce(value(old(self).state, 64), a as int, b as int)
                    && final(self).state == steps(old(self).state, 64),
                Err(e) => a > b && e == R30Error::InvalidRange
                    && final(self).state == old(self).state,
            },
            r matches Ok(v) ==> a <= v <= b,
    {
        if a > b {
            return Err(R30Error::InvalidRange);
        }
        let y: u64 = self.next_u64();
        let span: u64 = b - a;
        if span == u64::MAX {
            proof {
                lemma_small_mod(y as nat, 0x1_0000_0000_0000_0000);
            }
            Ok(y)
        } else {
            proof {
                lemma_mod_bound(y as int, span + 1);
            }
            Ok(a + y % (span + 1))
        }
    }

    /// Draws 32 bits and maps them into `a..=b` by remainder. Refused, with
    /// the generator untouched, when `a > b`.
    pub fn next_u32_in(&mut self, a: u32, b: u32) -> (r: Result<u32, R30Error>)
        ensures
            match r {
                Ok(v) => a <= b && v == reduce(value(old(self).state, 32), a as int, b as int)
                    && final(self).state == steps(old(self).state, 32),
                Err(e) => a > b && e == R30Error::InvalidRange
                    && final(self).state == old(self).state,
            },
            r matches Ok(v) ==> a <= v <= b,
    {
        if a > b {
            return Err(R30Error::InvalidRange);
        }
        let y: u32 = self.next_u32();
        let span: u32 = b - a;
        if span == u32::MAX {
            proof {
                lemma_small_mod(y as nat, 0x1_0000_0000);
            }
            Ok(y)
        } else {
            proof {
                lemma_mod_bound(y as int, span + 1);
            }
            Ok(a + y % (span + 1))
        }
    }

    /// Picks an element of `xs` by one bounded 64-bit draw. Refused, with the
    /// generator untouched, when `xs` is empty.
    pub fn rand_choice<'a, T>(&mut self, xs: &'a Vec<T>) -> (r: Result<&'a T, R30Error>)
        ensures
            match r {
                Ok(x) => xs@.len() > 0
                    && *x == xs@[reduce(value(old(self).state, 64), 0, xs@.len() - 1)]
                    && final(self).state == steps(old(self).state, 64),
                Err(e) => xs@.len() == 0 && e == R30Error::EmptyInput
                    && final(self).state == old(self).state,
            },
    {
        let len: usize = xs.len();
        if len == 0 {
            return Err(R30Error::EmptyInput);
        }
        match self.next_u64_in(0, len as u64 - 1) {
            Ok(ix) => Ok(&xs[ix as usize]),
            Err(e) => Err(e),
        }
    }

    /// Overwrites every byte of `dest` with a fresh 8-bit draw, in order.
    pub fn fill_bytes(&mut self, dest: &mut [u8])
        ensures
            final(dest)@ == bytes(old(self).state, old(dest)@.len()),
            final(self).state == steps(old(self).state, 8 * old(dest)@.len()),
    {
        let ghost start: u32 = self.state;
        let n: usize = dest.len();
        let mut i: usize = 0;
        while i < n
            invariant
                i <= n,
                dest@.len() == n,
                self.state == steps(start, 8 * i as nat),
                forall|k: int| 0 <= k < i ==> dest@[k] == byte_at(start, k as nat),
            decreases n - i,
        {
            let b: u8 = self.next_u8();
            dest[i] = b;
            proof {
                lemma_steps_add(start, 8 * i as nat, 8);
            }
            i += 1;
        }
    }

    /// The ring drawn as 32 characters, cell 31 first: a full block for a set
    /// cell, a space for a clear one.
    pub fn to_display_string(&self) -> (r: String)
        ensures
            r@ == picture(self@),
    {
        let mut out: String = String::new();
        let mut j: u32 = 0;
        while j < 32
            invariant
                j <= 32,
                out@.len() == j,
                forall|k: int| 0 <= k < j ==> out@[k] == glyph(cell(self.state, 31 - k)),
            decreases 32 - j,
        {
            let set: bool = (self.state >> (31 - j)) & 1 == 1;
            if set {
                proof {
                    reveal_strlit("\u{2588}");
                }
                out.append("\u{2588}");
            } else {
                proof {
                    reveal_strlit(" ");
                }
                out.append(" ");
            }
            j += 1;
        }
        out
    }

    /// Draws `n` bits and packs them into a number, first bit lowest.
    fn draw(&mut self, n: u32) -> (r: u64)
        requires
            n <= 64,
        ensures
            r == value(old(self).state, n as nat),
            final(self).state == steps(old(self).state, n as nat),
    {
        let ghost start: u32 = self.state;
        let mut acc: u64 = 0;
        let mut i: u32 = 0;
        while i < n
            invariant
                i <= n <= 64,
                acc == value(start, i as nat),
                self.state == steps(start, i as nat),
            decreases n - i,
        {
            let bit: u64 = if self.next_bool() { 1 } else { 0 };
            proof {
                lemma_value_bound(start, i as nat);
                lemma_place_bit(acc, bit, i);
            }
            acc |= bit << i;
            i += 1;
        }
        acc
    }
}

/// The seed that a clock reading of `secs` seconds gives: its square, cut to
/// the 32 low bits.
pub open spec fn time_seed(secs: u64) -> u32 {
    ((secs * secs) % 0x1_0000_0000) as u32
}

/// The character that stands for a cell.
pub open spec fn glyph(set: bool) -> char {
    if set {
        '\u{2588}'
    } else {
        ' '
    }
}

/// The picture of a ring: one character per cell, the last cell first.
pub open spec fn picture(ring: Seq<bool>) -> Seq<char> {
    Seq::new(ring.len(), |j: int| glyph(ring[ring.len() - 1 - j]))
}

/// The two's-complement reading of a 32-bit pattern.
pub open spec fn signed32(v: nat) -> int {
    if v < 0x8000_0000 {
        v as int
    } else {
        v - 0x1_0000_0000
    }
}

/// The two's-complement reading of a 64-bit pattern.
pub open spec fn signed64(v: nat) -> int {
    if v < 0x8000_0000_0000_0000 {
        v as int
    } else {
        v - 0x1_0000_0000_0000_0000
    }
}

/// Where the draw `y` lands in `a..=b`: `a` plus the remainder of `y` by the
/// number of values in the range.
pub open spec fn reduce(y: nat, a: int, b: int) -> int {
    a + (y as int) % (b - a + 1)
}

/// A bounded draw lands in its range, whatever was drawn.
pub proof fn lemma_reduce_in_range(y: nat, a: int, b: int)
    requires
        a <= b,
    ensures
        a <= reduce(y, a, b) <= b,
{
    lemma_mod_bound(y as int, b - a + 1);
}

/// A run is determined by where it starts: two generators in the same state
/// pass through the same states, however far they are advanced.
pub proof fn lemma_same_state_same_run(a: R30, b: R30, n: nat)
    requires
        a.state == b.state,
    ensures
        trajectory(a.state, n) == trajectory(b.state, n),
        steps(a.state, n) == steps(b.state, n),
        a@ == b@,
{
}

/// Construction is repeatable: two generators made from the same seed yield
/// the same bits, the same numbers and the same bytes, and are left in the
/// same state, however much is drawn.
pub proof fn lemma_same_seed_same_output(seed: u32, a: R30, b: R30, n: nat)
    requires
        a.state == seed,
        b.state == seed,
    ensures
        bits(a.state, n) == bits(b.state, n),
        value(a.state, n) == value(b.state, n),
        bytes(a.state, n) == bytes(b.state, n),
        steps(a.state, n) == steps(b.state, n),
{
}

/// Two generators that show the same cells are the same generator.
pub proof fn lemma_view_is_faithful(a: R30, b: R30)
    requires
        a@ == b@,
    ensures
        a == b,
{
    lemma_cells_determine_state(a.state, b.state);
}

/// Setting bit `i` of a number below `2^i` adds `2^i` to it.
proof fn lemma_place_bit(acc: u64, bit: u64, i: u32)
    requires
        i < 64,
        bit <= 1,
        acc < pow2(i as nat),
    ensures
        (acc | (bit << i)) == acc + bit * pow2(i as nat),
{
    lemma_u64_pow2_no_overflow(i as nat);
    lemma_u64_shl_is_mul(1u64, i as u64);
    let p: u64 = 1u64 << (i as u64);
    assert(p == pow2(i as nat));
    assert(1u64 << i == 1u64 << (i as u64)) by (bit_vector);
    if bit == 0 {
        assert((acc | (0u64 << i)) == acc) by (bit_vector);
    } else {
        assert((acc | (1u64 << i)) == acc + (1u64 << i)) by (bit_vector)
            requires
                i < 64,
                acc < (1u64 << i),
        ;
    }
}

} // verus!
