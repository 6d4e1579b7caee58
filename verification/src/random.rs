//! A source of uniform 32-bit draws, the operations derived from one draw,
//! and a small shift-register generator.

use vstd::prelude::*;

verus! {

/// The low eight bits of a draw.
pub open spec fn low_byte(draw: u32) -> u8 {
    (draw % 256) as u8
}

/// A draw scaled into `0..=max`: `floor(draw * (max + 1) / 2^32)`.
pub open spec fn scaled(draw: u32, max: u32) -> int {
    (draw as int * (max as int + 1)) / 0x1_0000_0000
}

/// A scaled draw never exceeds the bound it was scaled to.
pub proof fn lemma_scaled_bounds(draw: u32, max: u32)
    ensures
        0 <= scaled(draw, max) <= max,
{
    let p = draw as int * (max as int + 1);
    assert(0 <= p && p < 0x1_0000_0000 * (max as int + 1)) by (nonlinear_arith)
        requires
            p == draw as int * (max as int + 1),
            0 <= draw < 0x1_0000_0000,
            0 <= max,
    ;
    assert(0 <= p / 0x1_0000_0000 <= max as int);
}

/// Scales `draw` into `0..=max`: the whole part of `draw * (max + 1) / 2^32`,
/// computed in integers.
pub fn scale(draw: u32, max: u32) -> (r: u32)
    ensures
        r == scaled(draw, max),
        r <= max,
{
    proof {
        lemma_scaled_bounds(draw, max);
        assert(draw as int * (max as int + 1) <= 0xffff_ffff * 0x1_0000_0000) by (nonlinear_arith)
            requires
                0 <= draw <= 0xffff_ffff,
                0 <= max <= 0xffff_ffff,
        ;
    }
    let product: u64 = (draw as u64) * (max as u64 + 1);
    (product / 0x1_0000_0000) as u32
}

/// A source of draws that are meant to be uniform over the whole 32-bit
/// range. A source is a state that fixes the sequence of its draws: the next
/// value is `next_draw`, and the source that remains is `after_draw`.
pub trait Random: Sized {
    /// The value that the next draw returns.
    spec fn next_draw(&self) -> u32;

    /// The source as it is after the next draw.
    spec fn after_draw(&self) -> Self;

    /// Draws the next 32-bit value.
    fn gen(&mut self) -> (r: u32)
        ensures
            r == old(self).next_draw(),
            *final(self) == old(self).after_draw(),
    ;

    /// Draws a byte: the low eight bits of one 32-bit draw.
    fn gen_u8(&mut self) -> (r: u8)
        ensures
            r == low_byte(old(self).next_draw()),
            *final(self) == old(self).after_draw(),
    {
        let draw = self.gen();
        assert(draw & 0xff == draw % 256) by (bit_vector);
        (draw & 0xff) as u8
    }

    /// Draws a value in `0..=max`, by scaling one 32-bit draw.
    fn gen_max(&mut self, max: u32) -> (r: u32)
        ensures
            r == scaled(old(self).next_draw(), max),
            r <= max,
            *final(self) == old(self).after_draw(),
    {
        let draw = self.gen();
        scale(draw, max)
    }
}

/// The source that remains after `count` draws from `source`.
pub open spec fn skip<R: Random>(source: R, count: nat) -> R
    decreases count,
{
    if count == 0 {
        source
    } else {
        skip(source.after_draw(), (count - 1) as nat)
    }
}

/// The value of the draw that comes after `count` draws from `source`.
pub open spec fn draw_at<R: Random>(source: R, count: nat) -> u32 {
    skip(source, count).next_draw()
}

/// Skipping `count` draws and then one more skips `count + 1` draws.
pub proof fn lemma_skip_one_more<R: Random>(source: R, count: nat)
    ensures
        skip(source, count).after_draw() == skip(source, count + 1),
    decreases count,
{
    reveal_with_fuel(skip, 2);
    if count > 0 {
        lemma_skip_one_more(source.after_draw(), (count - 1) as nat);
    }
}

/// The byte that the shift register feeds back in state `state`: bits 23 to
/// 30 of the state combined by exclusive or with bits 10 to 17.
pub open spec fn lfsr_feedback(state: u32) -> u32 {
    ((state & 0x7f80_0000) >> 23) ^ ((state & 0x0003_fc00) >> 10)
}

/// The state that follows `state`: the state shifted left by one byte, with
/// the byte fed back in the low end.
pub open spec fn lfsr_next(state: u32) -> u32 {
    (state << 8) | lfsr_feedback(state)
}

/// The low byte of the state that follows `state` is the byte fed back.
pub proof fn lemma_lfsr_low_byte(state: u32)
    ensures
        lfsr_feedback(state) < 256,
        low_byte(lfsr_next(state)) == lfsr_feedback(state),
{
    assert(((state & 0x7f80_0000) >> 23) ^ ((state & 0x0003_fc00) >> 10) < 256) by (bit_vector);
    assert(((state << 8) | (((state & 0x7f80_0000) >> 23) ^ ((state & 0x0003_fc00) >> 10))) % 256
        == ((state & 0x7f80_0000) >> 23) ^ ((state & 0x0003_fc00) >> 10)) by (bit_vector);
}

/// A generator in the style of a linear-feedback shift register, over a
/// 32-bit state. Each draw shifts one new byte into the state and gives out
/// the state: the four bytes shifted in last, the newest in the low end.
pub struct LfsrRandom {
    state: u32,
}

/// The seed of the generator that `LfsrRandom::default` makes.
pub const LFSR_DEFAULT_SEED: u32 = 0x1729_1729;

impl View for LfsrRandom {
    type V = u32;

    /// The 32-bit state.
    closed spec fn view(&self) -> u32 {
        self.state
    }
}

impl LfsrRandom {
    /// The generator whose state is `state`.
    pub closed spec fn with_state(state: u32) -> LfsrRandom {
        LfsrRandom { state }
    }

    /// A generator is determined by its state.
    pub proof fn lemma_with_state(g: LfsrRandom, state: u32)
        ensures
            LfsrRandom::with_state(state)@ == state,
            g == LfsrRandom::with_state(g@),
    {
    }

    /// A generator that starts from `seed`.
    pub fn new(seed: u32) -> (g: LfsrRandom)
        ensures
            g@ == seed,
            g == LfsrRandom::with_state(seed),
    {
        LfsrRandom { state: seed }
    }

    /// The current state.
    pub fn state(&self) -> (s: u32)
        ensures
            s == self@,
    {
        self.state
    }
}

impl Random for LfsrRandom {
    open spec fn next_draw(&self) -> u32 {
        lfsr_next(self@)
    }

    open spec fn after_draw(&self) -> LfsrRandom {
        LfsrRandom::with_state(lfsr_next(self@))
    }

    /// Shifts the next byte into the state and gives out the state.
    fn gen(&mut self) -> (r: u32)
        ensures
            r == lfsr_next(old(self)@),
            final(self)@ == lfsr_next(old(self)@),
    {
        let state = self.state;
        let res = (state & 0x7f80_0000).wrapping_shr(23) ^ (state & 0x0003_fc00).wrapping_shr(10);
        self.state = self.state.wrapping_shl(8) | res;
        self.state
    }
}

impl Default for LfsrRandom {
    /// The generator that starts from `LFSR_DEFAULT_SEED`.
    fn default() -> (g: LfsrRandom)
        ensures
            g@ == LFSR_DEFAULT_SEED,
    {
        LfsrRandom { state: LFSR_DEFAULT_SEED }
    }
}

} // verus!
