//! One logic cell: a 16-bit lookup table, a 4-bit address register, a 4-bit
//! shift register and a 4-bit latch.

use vstd::prelude::*;

verus! {

/// How the address register moves on each tick.
#[derive(Clone, Copy, Debug, PartialEq, Eq, Structural)]
pub enum AddrMode {
    /// The address is replaced by the supplied value.
    ExternalLoad,
    /// The address counts up by one, modulo 16.
    FreeRunningCounter,
}

/// What a cell hands to its downstream neighbour, and what a cell is fed:
/// a 4-bit value `q` and the two control bits `se` (shift enable) and
/// `le` (latch enable).
#[derive(Clone, Copy, Debug, PartialEq, Eq, Structural)]
pub struct Output {
    pub q: u8,
    pub se: u8,
    pub le: u8,
}

impl Output {
    /// `q` fits in four bits, `se` and `le` in one.
    pub open spec fn wf(self) -> bool {
        self.q < 16 && self.se < 2 && self.le < 2
    }
}

/// Bit `k` of `x` (0 or 1).
pub open spec fn bit_of(x: u8, k: u8) -> u8 {
    (x >> k) & 1
}

/// The mathematical state of a cell.
pub struct CellState {
    /// The lookup table, one output bit per 4-bit address.
    pub lut: u16,
    /// Added into the lookup table on every tick (0 keeps it fixed).
    pub bias: u8,
    pub mode: AddrMode,
    pub addr: u8,
    pub shift: u8,
    pub latched: u8,
}

impl CellState {
    /// Every register fits in four bits.
    pub open spec fn wf(self) -> bool {
        self.addr < 16 && self.shift < 16 && self.latched < 16
    }

    /// The latch samples the shift register when the input asks for it or
    /// when bit 1 of the address register is set.
    pub open spec fn latch_gate(self, input: Output) -> bool {
        input.le == 1 || bit_of(self.addr, 1) == 1
    }

    /// The shift register moves when the input asks for it or when bit 0 of
    /// the address register is set.
    pub open spec fn shift_gate(self, input: Output) -> bool {
        input.se == 1 || bit_of(self.addr, 0) == 1
    }

    /// The table's bit at the current address.
    pub open spec fn lut_bit(self) -> u8 {
        ((self.lut >> (self.addr as u16)) & 1) as u8
    }

    /// The shift register moved right by one, with the table's bit entering
    /// at the top.
    pub open spec fn shifted(self) -> u8 {
        (self.shift >> 1) | (self.lut_bit() << 3)
    }

    /// The address register after a tick.
    pub open spec fn next_addr(self, input: Output) -> u8 {
        match self.mode {
            AddrMode::ExternalLoad => input.q,
            AddrMode::FreeRunningCounter => ((self.addr + 1) % 16) as u8,
        }
    }

    /// One tick: latch (on the pre-shift value), shift, address update, and
    /// the table's drift by `bias`, all read from the state before the tick.
    pub open spec fn step(self, input: Output) -> CellState {
        CellState {
            lut: ((self.lut + self.bias) % 65536) as u16,
            bias: self.bias,
            mode: self.mode,
            addr: self.next_addr(input),
            shift: if self.shift_gate(input) {
                self.shifted()
            } else {
                self.shift
            },
            latched: if self.latch_gate(input) {
                self.shift
            } else {
                self.latched
            },
        }
    }

    /// The same state with the shift register replaced by `v`.
    pub open spec fn with_shift(self, v: u8) -> CellState {
        CellState {
            lut: self.lut,
            bias: self.bias,
            mode: self.mode,
            addr: self.addr,
            shift: v,
            latched: self.latched,
        }
    }

    /// What the cell broadcasts: its latch, and bits 2 and 3 of its address.
    pub open spec fn output(self) -> Output {
        Output { q: self.latched, se: bit_of(self.addr, 2), le: bit_of(self.addr, 3) }
    }

    /// The state after one tick per input, in order.
    pub open spec fn run(self, inputs: Seq<Output>) -> CellState
        decreases inputs.len(),
    {
        if inputs.len() == 0 {
            self
        } else {
            self.step(inputs[0]).run(inputs.subrange(1, inputs.len() as int))
        }
    }
}

/// A single cell of the ring.
#[derive(Clone, Copy, Debug)]
pub struct LifeCell {
    light: u8,
    lut_config: u16,
    a_config: AddrMode,
    a_reg: u8,
    s_reg: u8,
    q_reg: u8,
}

impl View for LifeCell {
    type V = CellState;

    closed spec fn view(&self) -> CellState {
        CellState {
            lut: self.lut_config,
            bias: self.light,
            mode: self.a_config,
            addr: self.a_reg,
            shift: self.s_reg,
            latched: self.q_reg,
        }
    }
}

/// Relies on rand::random: a byte drawn from the thread-local generator;
/// nothing is promised of its value.
#[verifier::external_body]
fn random_byte() -> (r: u8) {
    rand::random::<u8>()
}

proof fn lemma_bit_of_is_bit(x: u8, k: u8)
    ensures
        bit_of(x, k) < 2,
{
    assert((x >> k) & 1 < 2) by (bit_vector);
}

/// The output of a well-formed cell is a well-formed input.
pub proof fn lemma_output_wf(c: CellState)
    requires
        c.wf(),
    ensures
        c.output().wf(),
{
    lemma_bit_of_is_bit(c.addr, 2);
    lemma_bit_of_is_bit(c.addr, 3);
}

impl LifeCell {
    /// A cell with the given registers.
    pub fn new(lut: u16, bias: u8, mode: AddrMode, addr: u8, shift: u8, latched: u8) -> (c:
        LifeCell)
        requires
            addr < 16,
            shift < 16,
            latched < 16,
        ensures
            c@ == (CellState { lut, bias, mode, addr, shift, latched }),
    {
        LifeCell {
            light: bias,
            lut_config: lut,
            a_config: mode,
            a_reg: addr,
            s_reg: shift,
            q_reg: latched,
        }
    }

    /// Advances the cell by one tick on the given input.
    pub fn step(&mut self, input: Output)
        requires
            old(self)@.wf(),
            input.wf(),
        ensures
            final(self)@ == old(self)@.step(input),
            final(self)@.wf(),
    {
        let ghost pre = self@;
        if input.le == 1 || (self.a_reg >> 1) & 1 == 1 {
            self.q_reg = self.s_reg;
        }
        if input.se == 1 || (self.a_reg >> 0) & 1 == 1 {
            let lut_q = ((self.lut_config >> (self.a_reg as u16)) & 1) as u8;
            self.s_reg = (self.s_reg >> 1) | (lut_q << 3);
        }
        self.a_reg = match self.a_config {
            AddrMode::ExternalLoad => input.q,
            AddrMode::FreeRunningCounter => (self.a_reg + 1) % 16,
        };
        self.lut_config = self.lut_config.wrapping_add(self.light as u16);
        proof {
            lemma_step_keeps_width(pre, input);
        }
    }

    /// What the cell broadcasts to its downstream neighbour.
    pub fn output(&self) -> (r: Output)
        ensures
            r == self@.output(),
            self@.wf() ==> r.wf(),
    {
        proof {
            if self@.wf() {
                lemma_output_wf(self@);
            }
        }
        Output { q: self.q_reg, se: (self.a_reg >> 2) & 1, le: (self.a_reg >> 3) & 1 }
    }

    /// Overwrites the shift register with the low four bits of `noise`.
    pub fn perturb(&mut self, noise: u8)
        ensures
            final(self)@ == old(self)@.with_shift(noise & 0xF),
            old(self)@.wf() ==> final(self)@.wf(),
    {
        self.s_reg = noise & 0xF;
        assert(noise & 0xF < 16) by (bit_vector);
    }

    /// Overwrites the shift register with a random 4-bit value.
    pub fn poke(&mut self)
        ensures
            final(self)@ == old(self)@.with_shift(final(self)@.shift),
            final(self)@.shift < 16,
    {
        let noise = random_byte();
        self.perturb(noise);
        assert(noise & 0xF < 16) by (bit_vector);
    }

    /// The lookup table.
    pub fn lut(&self) -> (r: u16)
        ensures
            r == self@.lut,
    {
        self.lut_config
    }

    /// The amount added into the lookup table on every tick.
    pub fn bias(&self) -> (r: u8)
        ensures
            r == self@.bias,
    {
        self.light
    }

    /// How the address register moves.
    pub fn mode(&self) -> (r: AddrMode)
        ensures
            r == self@.mode,
    {
        self.a_config
    }

    /// The address register.
    pub fn addr_reg(&self) -> (r: u8)
        ensures
            r == self@.addr,
    {
        self.a_reg
    }

    /// The latch.
    pub fn latched_reg(&self) -> (r: u8)
        ensures
            r == self@.latched,
    {
        self.q_reg
    }

    /// The shift register, the value the cell displays.
    pub fn as_u4(&self) -> (r: u8)
        ensures
            r == self@.shift,
    {
        self.s_reg
    }
}

/// A tick keeps every register within four bits.
pub proof fn lemma_step_keeps_width(c: CellState, input: Output)
    requires
        c.wf(),
        input.wf(),
    ensures
        c.step(input).wf(),
{
    let s = c.shift;
    let l = c.lut;
    let a = c.addr as u16;
    let b = c.lut_bit();
    assert(b == ((l >> a) & 1) as u8);
    assert((l >> a) & 1 < 2) by (bit_vector);
    assert(s < 16 && b < 2 ==> (s >> 1) | (b << 3) < 16) by (bit_vector);
}

proof fn lemma_run_unfold(c: CellState, inputs: Seq<Output>)
    requires
        inputs.len() > 0,
    ensures
        c.run(inputs) == c.step(inputs[0]).run(inputs.subrange(1, inputs.len() as int)),
{
}

/// With an all-ones table that does not drift and shift enable set on every
/// input, the shift register reads 15 after four ticks, and stays there.
pub proof fn lemma_shift_fills_with_ones(c: CellState, inputs: Seq<Output>)
    requires
        c.wf(),
        c.lut == 0xFFFF,
        c.bias == 0,
        inputs.len() >= 4,
        forall|i: int| 0 <= i < inputs.len() ==> (#[trigger] inputs[i]).wf() && inputs[i].se == 1,
    ensures
        c.run(inputs).shift == 15,
    decreases inputs.len(),
{
    lemma_fill_step(c, inputs[0]);
    let c1 = c.step(inputs[0]);
    let rest = inputs.subrange(1, inputs.len() as int);
    if inputs.len() == 4 {
        lemma_fill_step(c1, rest[0]);
        let c2 = c1.step(rest[0]);
        let rest2 = rest.subrange(1, rest.len() as int);
        lemma_fill_step(c2, rest2[0]);
        let c3 = c2.step(rest2[0]);
        let rest3 = rest2.subrange(1, rest2.len() as int);
        lemma_fill_step(c3, rest3[0]);
        let c4 = c3.step(rest3[0]);
        let rest4 = rest3.subrange(1, rest3.len() as int);
        assert(rest4.len() == 0);
        let s = c.shift;
        assert(s < 16 ==> ((((((s >> 1) | 8) >> 1) | 8) >> 1 | 8) >> 1) | 8 == 15) by (bit_vector);
        lemma_run_unfold(c3, rest3);
        lemma_run_unfold(c2, rest2);
        lemma_run_unfold(c1, rest);
    } else {
        lemma_shift_fills_with_ones(c1, rest);
    }
}

/// One tick of an all-ones, non-drifting table with shift enable set shifts
/// a one in at the top.
proof fn lemma_fill_step(c: CellState, input: Output)
    requires
        c.wf(),
        c.lut == 0xFFFF,
        c.bias == 0,
        input.wf(),
        input.se == 1,
    ensures
        c.step(input).shift == (c.shift >> 1) | 8,
        c.step(input).lut == 0xFFFF,
        c.step(input).bias == 0,
        c.step(input).wf(),
{
    let l = c.lut;
    let a = c.addr as u16;
    assert(a < 16 && l == 0xFFFF ==> (l >> a) & 1 == 1) by (bit_vector);
    let b = c.lut_bit();
    let s = c.shift;
    assert(b == 1 ==> (s >> 1) | (b << 3) == (s >> 1) | 8) by (bit_vector);
    lemma_step_keeps_width(c, input);
}

/// With latch enable low on the input and bit 1 of the address register
/// clear, a tick leaves the latch as it was, whatever the shift register does.
pub proof fn lemma_latch_holds(c: CellState, input: Output)
    requires
        input.le == 0,
        bit_of(c.addr, 1) == 0,
    ensures
        c.step(input).latched == c.latched,
{
}

/// A cell that loads its address from its input keeps its latch across any
/// number of ticks, as long as every input has latch enable low and bit 1 of
/// every loaded address is clear (and so is bit 1 of the starting address).
pub proof fn lemma_latch_holds_across_ticks(c: CellState, inputs: Seq<Output>)
    requires
        c.mode == AddrMode::ExternalLoad,
        bit_of(c.addr, 1) == 0,
        forall|i: int|
            0 <= i < inputs.len() ==> (#[trigger] inputs[i]).le == 0 && bit_of(inputs[i].q, 1)
                == 0,
    ensures
        c.run(inputs).latched == c.latched,
    decreases inputs.len(),
{
    if inputs.len() > 0 {
        let rest = inputs.subrange(1, inputs.len() as int);
        assert(inputs[0].le == 0);
        lemma_latch_holds(c, inputs[0]);
        assert forall|i: int| 0 <= i < rest.len() implies (#[trigger] rest[i]).le == 0 && bit_of(
            rest[i].q,
            1,
        ) == 0 by {
            assert(rest[i] == inputs[i + 1]);
        }
        lemma_latch_holds_across_ticks(c.step(inputs[0]), rest);
    }
}

/// A loading cell's address register holds exactly the supplied value after
/// each tick.
pub proof fn lemma_external_load(c: CellState, input: Output)
    requires
        c.mode == AddrMode::ExternalLoad,
    ensures
        c.step(input).addr == input.q,
{
}

/// A counting cell's address register advances by one per tick modulo 16,
/// whatever the inputs.
pub proof fn lemma_counter_addr(c: CellState, inputs: Seq<Output>)
    requires
        c.mode == AddrMode::FreeRunningCounter,
        c.addr < 16,
    ensures
        c.run(inputs).addr == (c.addr + inputs.len()) % 16,
    decreases inputs.len(),
{
    if inputs.len() > 0 {
        let c1 = c.step(inputs[0]);
        lemma_counter_addr(c1, inputs.subrange(1, inputs.len() as int));
        assert(((c.addr + 1) % 16 + (inputs.len() - 1)) % 16 == (c.addr + inputs.len()) % 16)
            by (nonlinear_arith)
            requires
                inputs.len() > 0,
        ;
    }
}

/// A counting cell's address register comes back to its start after exactly
/// 16 ticks, and not before.
pub proof fn lemma_counter_period(c: CellState, inputs: Seq<Output>)
    requires
        c.mode == AddrMode::FreeRunningCounter,
        c.addr < 16,
        0 < inputs.len() <= 16,
    ensures
        c.run(inputs).addr == c.addr <==> inputs.len() == 16,
{
    lemma_counter_addr(c, inputs);
}

} // verus!
