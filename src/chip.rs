//! The emulated SID chip as the player sees it: register writes and clock advances in
//! program order.
//!
//! A [`Chip`] is viewed as a [`ChipHistory`]: the writes it received, each with the
//! cycle at which it came, and the total cycles run. The exact emulator calls made on
//! it, writes and unmerged clock runs, are kept beside that view; the output sample
//! is named over them.
use vstd::prelude::*;

verus! {

/// The highest writable register of the chip.
pub const LAST_REGISTER: u8 = 0x18;

/// The longest run that one call of the emulator's clock takes: its oscillators add
/// `delta * frequency` (frequency up to 0xffff) to a 24-bit accumulator in `u32`.
pub const MAX_CLOCK_STEP: u32 = 65280;

/// The fewest cycles between two writes to one voice's control register. The
/// envelope's rate counter period is 9 cycles while the envelope registers keep their
/// reset value 0, so a key on is followed by an attack step, and a key off at the
/// peak by a release step, before the next change of the key.
pub const CONTROL_GAP: u32 = 9;

#[verifier::external_type_specification]
#[verifier::external_body]
pub struct ExSid(resid::Sid);

/// The two chip models.
#[derive(Debug, Clone, Copy, PartialEq, Eq, Structural)]
pub enum SidModel {
    Mos6581,
    Mos8580,
}

/// Why a chip operation was refused.
#[derive(Debug, Clone, Copy, PartialEq, Eq, Structural)]
pub enum ChipError {
    /// The register lies outside the writable range `0..=LAST_REGISTER`.
    InvalidRegister { reg: u8 },
}

/// One operation on the chip.
#[derive(Debug, Clone, Copy, PartialEq, Eq, Structural)]
pub enum ChipOp {
    /// Store `value` in register `reg`.
    Write { reg: u8, value: u8 },
    /// Run the chip for `cycles` clock cycles.
    Advance { cycles: u32 },
}

/// What a chip has received: each write with the cycle at which it came, and the
/// cycle the chip has reached.
pub struct ChipHistory {
    pub writes: Seq<(nat, u8, u8)>,
    pub now: nat,
}

impl ChipHistory {
    /// A chip that has received nothing.
    pub open spec fn initial() -> ChipHistory {
        ChipHistory { writes: Seq::empty(), now: 0 }
    }

    pub open spec fn write(self, reg: u8, value: u8) -> ChipHistory {
        ChipHistory { writes: self.writes.push((self.now, reg, value)), now: self.now }
    }

    pub open spec fn advance(self, cycles: nat) -> ChipHistory {
        ChipHistory { writes: self.writes, now: self.now + cycles }
    }

    /// `k` advances of `cycles` each, one after another.
    pub open spec fn advance_times(self, cycles: nat, k: nat) -> ChipHistory
        decreases k,
    {
        if k == 0 {
            self
        } else {
            self.advance_times(cycles, (k - 1) as nat).advance(cycles)
        }
    }

    pub open spec fn apply(self, op: ChipOp) -> ChipHistory {
        match op {
            ChipOp::Write { reg, value } => self.write(reg, value),
            ChipOp::Advance { cycles } => self.advance(cycles as nat),
        }
    }

    /// The operations applied in order.
    pub open spec fn apply_all(self, ops: Seq<ChipOp>) -> ChipHistory
        decreases ops.len(),
    {
        if ops.len() == 0 {
            self
        } else {
            self.apply_all(ops.drop_last()).apply(ops.last())
        }
    }
}

/// Whether the chip accepts `op`.
pub open spec fn valid_op(op: ChipOp) -> bool {
    match op {
        ChipOp::Write { reg, .. } => reg <= LAST_REGISTER,
        ChipOp::Advance { .. } => true,
    }
}

/// Whether every operation in `ops` is an advance.
pub open spec fn all_advances(ops: Seq<ChipOp>) -> bool {
    forall|i: int| 0 <= i < ops.len() ==> ops[i] is Advance
}

/// The cycles that the advances in `ops` add up to.
pub open spec fn total_cycles(ops: Seq<ChipOp>) -> nat
    decreases ops.len(),
{
    if ops.len() == 0 {
        0
    } else {
        total_cycles(ops.drop_last()) + match ops.last() {
            ChipOp::Advance { cycles } => cycles as nat,
            ChipOp::Write { .. } => 0,
        }
    }
}

/// Running the clock by `a` and then by `b` cycles is running it by `a + b`.
pub proof fn lemma_advance_additive(h: ChipHistory, a: nat, b: nat)
    ensures
        h.advance(a).advance(b) == h.advance(a + b),
{
}

/// `k` equal advances of `cycles` each leave the chip as one advance of
/// `k * cycles` does.
pub proof fn lemma_advance_times(h: ChipHistory, cycles: nat, k: nat)
    ensures
        h.advance_times(cycles, k) == h.advance(k * cycles),
    decreases k,
{
    if k > 0 {
        lemma_advance_times(h, cycles, (k - 1) as nat);
        assert((k - 1) * cycles + cycles == k * cycles) by (nonlinear_arith);
    } else {
        assert(k * cycles == 0) by (nonlinear_arith)
            requires
                k == 0,
        ;
    }
}

/// Any run of advances leaves the chip as one advance by their total does.
pub proof fn lemma_advances_total(h: ChipHistory, ops: Seq<ChipOp>)
    requires
        all_advances(ops),
    ensures
        h.apply_all(ops) == h.advance(total_cycles(ops)),
    decreases ops.len(),
{
    if ops.len() > 0 {
        lemma_advances_total(h, ops.drop_last());
        assert(ops.last() is Advance);
    }
}

/// Applying `a` and then `b` is applying their concatenation.
pub proof fn lemma_apply_all_append(h: ChipHistory, a: Seq<ChipOp>, b: Seq<ChipOp>)
    ensures
        h.apply_all(a + b) == h.apply_all(a).apply_all(b),
    decreases b.len(),
{
    if b.len() == 0 {
        assert(a + b =~= a);
    } else {
        assert((a + b).drop_last() =~= a + b.drop_last());
        lemma_apply_all_append(h, a, b.drop_last());
    }
}

/// The envelope registers (attack/decay, sustain/release) of the three voices.
pub open spec fn is_envelope_reg(reg: u8) -> bool {
    reg == 0x05 || reg == 0x06 || reg == 0x0c || reg == 0x0d || reg == 0x13 || reg == 0x14
}

/// The control registers of the three voices.
pub open spec fn is_control_reg(reg: u8) -> bool {
    reg == 0x04 || reg == 0x0b || reg == 0x12
}

/// Whether every earlier write to `reg` lies at least `CONTROL_GAP` cycles back.
pub open spec fn control_ready(h: ChipHistory, reg: u8) -> bool {
    forall|i: int|
        0 <= i < h.writes.len() && (#[trigger] h.writes[i]).1 == reg ==> h.writes[i].0
            + CONTROL_GAP <= h.now
}

/// The filter's resonance and routing register; its low four bits send voices 1 to 3
/// and the external input through the filter.
pub const RES_FILT: u8 = 0x17;

/// Whether a write of `value` to `reg` leaves every voice outside the filter.
pub open spec fn unfiltered(reg: u8, value: u8) -> bool {
    reg == RES_FILT ==> value % 16 == 0
}

/// Whether the chip may take a write of `value` to `reg` now: no envelope register,
/// nothing routed through the filter, and no control register written less than
/// `CONTROL_GAP` cycles ago.
pub open spec fn write_allowed(h: ChipHistory, reg: u8, value: u8) -> bool {
    !is_envelope_reg(reg) && unfiltered(reg, value) && (is_control_reg(reg) ==> control_ready(
        h,
        reg,
    ))
}

pub open spec fn op_allowed(h: ChipHistory, op: ChipOp) -> bool {
    match op {
        ChipOp::Write { reg, value } => write_allowed(h, reg, value),
        ChipOp::Advance { .. } => true,
    }
}

/// Whether each operation of `ops` is allowed where it comes, starting from `h`.
pub open spec fn ops_allowed(h: ChipHistory, ops: Seq<ChipOp>) -> bool
    decreases ops.len(),
{
    ops.len() == 0 || (ops_allowed(h, ops.drop_last()) && op_allowed(
        h.apply_all(ops.drop_last()),
        ops.last(),
    ))
}

/// The histories on which the emulator's arithmetic stays in range: no envelope
/// register written, no voice routed through the filter, and any two writes to one
/// control register at least `CONTROL_GAP` cycles apart.
///
/// Other envelope settings stretch the rate period up to 31250 cycles, and a change of
/// the key could then come before any envelope step, driving a counter past 0 or 0xff.
/// With nothing routed the filter's state stays 0, and the external filter's input
/// stays within the sum of three voices at full volume, far from where its `i32`
/// products overflow.
pub open spec fn envelope_safe(h: ChipHistory) -> bool {
    &&& forall|i: int| 0 <= i < h.writes.len() ==> !is_envelope_reg((#[trigger] h.writes[i]).1)
    &&& forall|i: int|
        0 <= i < h.writes.len() ==> unfiltered((#[trigger] h.writes[i]).1, h.writes[i].2)
    &&& forall|i: int, j: int|
        0 <= i < j < h.writes.len() && is_control_reg((#[trigger] h.writes[j]).1)
            && (#[trigger] h.writes[i]).1 == h.writes[j].1 ==> h.writes[i].0 + CONTROL_GAP
            <= h.writes[j].0
    &&& forall|i: int| 0 <= i < h.writes.len() ==> (#[trigger] h.writes[i]).0 <= h.now
}

/// Operations are allowed from `h` in sequence exactly when the first part is, and the
/// second part is from where the first leaves the chip.
pub proof fn lemma_ops_allowed_append(h: ChipHistory, a: Seq<ChipOp>, b: Seq<ChipOp>)
    ensures
        ops_allowed(h, a + b) == (ops_allowed(h, a) && ops_allowed(h.apply_all(a), b)),
    decreases b.len(),
{
    if b.len() == 0 {
        assert(a + b =~= a);
    } else {
        assert((a + b).drop_last() =~= a + b.drop_last());
        assert((a + b).last() == b.last());
        lemma_ops_allowed_append(h, a, b.drop_last());
        lemma_apply_all_append(h, a, b.drop_last());
    }
}

/// Each operation of an allowed sequence is allowed where it comes.
pub proof fn lemma_ops_allowed_at(h: ChipHistory, ops: Seq<ChipOp>, i: int)
    requires
        ops_allowed(h, ops),
        0 <= i < ops.len(),
    ensures
        op_allowed(h.apply_all(ops.take(i)), ops[i]),
{
    assert(ops =~= ops.take(i + 1) + ops.skip(i + 1));
    lemma_ops_allowed_append(h, ops.take(i + 1), ops.skip(i + 1));
    assert(ops.take(i + 1).drop_last() =~= ops.take(i));
}

/// A run of advances is always allowed.
pub proof fn lemma_advances_allowed(h: ChipHistory, ops: Seq<ChipOp>)
    requires
        all_advances(ops),
    ensures
        ops_allowed(h, ops),
    decreases ops.len(),
{
    if ops.len() > 0 {
        lemma_advances_allowed(h, ops.drop_last());
        assert(ops.last() is Advance);
    }
}

pub proof fn lemma_write_safe(h: ChipHistory, reg: u8, value: u8)
    requires
        envelope_safe(h),
        write_allowed(h, reg, value),
    ensures
        envelope_safe(h.write(reg, value)),
{
    let w = h.write(reg, value).writes;
    assert forall|i: int, j: int|
        0 <= i < j < w.len() && is_control_reg((#[trigger] w[j]).1) && (#[trigger] w[i]).1
            == w[j].1 implies w[i].0 + CONTROL_GAP <= w[j].0 by {
        if j == w.len() - 1 {
            assert(h.writes[i] == w[i]);
        } else {
            assert(h.writes[i] == w[i] && h.writes[j] == w[j]);
        }
    }
}

/// The emulator calls by which the chip runs `cycles` cycles: runs of `MAX_CLOCK_STEP`,
/// then the rest; none for zero cycles.
pub open spec fn clock_chunks(cycles: nat) -> Seq<ChipOp>
    decreases cycles,
{
    if cycles == 0 {
        Seq::empty()
    } else if cycles > MAX_CLOCK_STEP {
        seq![ChipOp::Advance { cycles: MAX_CLOCK_STEP }] + clock_chunks(
            (cycles - MAX_CLOCK_STEP) as nat,
        )
    } else {
        seq![ChipOp::Advance { cycles: cycles as u32 }]
    }
}

/// The emulator calls by which the chip applies `op`.
pub open spec fn op_calls(op: ChipOp) -> Seq<ChipOp> {
    match op {
        ChipOp::Write { .. } => seq![op],
        ChipOp::Advance { cycles } => clock_chunks(cycles as nat),
    }
}

/// The emulator calls by which the chip applies `ops`.
pub open spec fn expand(ops: Seq<ChipOp>) -> Seq<ChipOp>
    decreases ops.len(),
{
    if ops.len() == 0 {
        Seq::empty()
    } else {
        expand(ops.drop_last()) + op_calls(ops.last())
    }
}

/// `k` runs of the clock for `cycles` each, as emulator calls.
pub open spec fn repeat_chunks(cycles: nat, k: nat) -> Seq<ChipOp>
    decreases k,
{
    if k == 0 {
        Seq::empty()
    } else {
        repeat_chunks(cycles, (k - 1) as nat) + clock_chunks(cycles)
    }
}

/// The output sample of a chip of `model` after `calls`, each a register write or a
/// run of the clock, made in order on a fresh chip.
pub uninterp spec fn sid_output(model: SidModel, calls: Seq<ChipOp>) -> i16;

/// An emulated SID chip.
///
/// Its view is what it has received: each write with the cycle at which it came, and
/// the cycles run in total. `calls` are the emulator calls made on it, in order.
pub struct Chip {
    sid: resid::Sid,
    history: Ghost<ChipHistory>,
    calls: Ghost<Seq<ChipOp>>,
    model: Ghost<SidModel>,
}

impl View for Chip {
    type V = ChipHistory;

    closed spec fn view(&self) -> ChipHistory {
        self.history@
    }
}

/// Relies on resid's `Sid::new`: a reset chip of the given model.
#[verifier::external_body]
fn new_sid(model: SidModel) -> resid::Sid {
    match model {
        SidModel::Mos6581 => resid::Sid::new(resid::ChipModel::Mos6581),
        SidModel::Mos8580 => resid::Sid::new(resid::ChipModel::Mos8580),
    }
}

impl Chip {
    /// The emulator calls made on this chip.
    pub closed spec fn calls(&self) -> Seq<ChipOp> {
        self.calls@
    }

    pub closed spec fn model(&self) -> SidModel {
        self.model@
    }

    /// Relies on resid's `Sid::write`: stores a register, and does nothing for one it
    /// does not know; it does not panic.
    #[verifier::external_body]
    fn write_sid(&mut self, reg: u8, value: u8)
        ensures
            final(self)@ == old(self)@.write(reg, value),
            final(self).calls() == old(self).calls().push(ChipOp::Write { reg, value }),
            final(self).model() == old(self).model(),
    {
        self.sid.write(reg, value)
    }

    /// Relies on resid's `Sid::clock_delta`: runs the chip for `delta` cycles. Past
    /// `MAX_CLOCK_STEP` its oscillator arithmetic overflows; outside `envelope_safe`
    /// histories its envelope counters can step past 0 or 0xff.
    #[verifier::external_body]
    fn clock_sid(&mut self, delta: u32)
        requires
            delta <= MAX_CLOCK_STEP,
            envelope_safe(old(self)@),
        ensures
            final(self)@ == old(self)@.advance(delta as nat),
            final(self).calls() == old(self).calls().push(ChipOp::Advance { cycles: delta }),
            final(self).model() == old(self).model(),
    {
        self.sid.clock_delta(delta)
    }

    /// Relies on resid's `Sid::output`: the current output sample, which depends on the
    /// model and on the calls made alone.
    #[verifier::external_body]
    fn output_sid(&self) -> (r: i16)
        ensures
            r == sid_output(self.model(), self.calls()),
    {
        self.sid.output()
    }

    /// A fresh chip of the given model.
    pub fn new(model: SidModel) -> (r: Chip)
        ensures
            r@ == ChipHistory::initial(),
            r.calls() == Seq::<ChipOp>::empty(),
            r.model() == model,
            envelope_safe(r@),
    {
        Chip {
            sid: new_sid(model),
            history: Ghost(ChipHistory::initial()),
            calls: Ghost(Seq::empty()),
            model: Ghost(model),
        }
    }

    /// Stores `value` in register `reg`; a register past `LAST_REGISTER` is refused and
    /// nothing is written.
    pub fn write(&mut self, reg: u8, value: u8) -> (r: Result<(), ChipError>)
        requires
            envelope_safe(old(self)@),
            reg <= LAST_REGISTER ==> write_allowed(old(self)@, reg, value),
        ensures
            envelope_safe(final(self)@),
            final(self).model() == old(self).model(),
            reg <= LAST_REGISTER ==> r is Ok && final(self)@ == old(self)@.write(reg, value)
                && final(self).calls() == old(self).calls().push(ChipOp::Write { reg, value }),
            reg > LAST_REGISTER ==> r == Err::<(), ChipError>(ChipError::InvalidRegister { reg })
                && final(self)@ == old(self)@ && final(self).calls() == old(self).calls(),
    {
        if reg > LAST_REGISTER {
            return Err(ChipError::InvalidRegister { reg });
        }
        proof {
            lemma_write_safe(self@, reg, value);
        }
        self.write_sid(reg, value);
        Ok(())
    }

    /// Runs the chip for `cycles` clock cycles, in runs of at most `MAX_CLOCK_STEP`.
    pub fn advance(&mut self, cycles: u32)
        requires
            envelope_safe(old(self)@),
        ensures
            envelope_safe(final(self)@),
            final(self)@ == old(self)@.advance(cycles as nat),
            final(self).calls() == old(self).calls() + clock_chunks(cycles as nat),
            final(self).model() == old(self).model(),
    {
        let mut left: u32 = cycles;
        while left > 0
            invariant
                left <= cycles,
                envelope_safe(self@),
                self@ == old(self)@.advance((cycles - left) as nat),
                old(self).calls() + clock_chunks(cycles as nat) == self.calls() + clock_chunks(
                    left as nat,
                ),
                self.model() == old(self).model(),
            decreases left,
        {
            let step: u32 = if left > MAX_CLOCK_STEP {
                MAX_CLOCK_STEP
            } else {
                left
            };
            let ghost before = self.calls();
            self.clock_sid(step);
            assert(before + clock_chunks(left as nat) =~= self.calls() + clock_chunks(
                (left - step) as nat,
            ));
            left = left - step;
        }
        assert(self.calls() + clock_chunks(0) =~= self.calls());
    }

    /// The sample the chip outputs now.
    pub fn sample(&self) -> (r: i16)
        ensures
            r == sid_output(self.model(), self.calls()),
    {
        self.output_sid()
    }

    /// The underlying emulator, for inspection.
    pub fn sid(&self) -> &resid::Sid {
        &self.sid
    }

    /// Produces `count` samples, running the chip `cycles_per_sample` cycles before
    /// taking each.
    pub fn render(&mut self, count: usize, cycles_per_sample: u32) -> (r: Vec<i16>)
        requires
            envelope_safe(old(self)@),
        ensures
            envelope_safe(final(self)@),
            r@.len() == count,
            forall|j: int|
                0 <= j < count ==> #[trigger] r@[j] == sid_output(
                    old(self).model(),
                    old(self).calls() + repeat_chunks(cycles_per_sample as nat, (j + 1) as nat),
                ),
            final(self)@ == old(self)@.advance_times(cycles_per_sample as nat, count as nat),
            final(self).calls() == old(self).calls() + repeat_chunks(
                cycles_per_sample as nat,
                count as nat,
            ),
            final(self).model() == old(self).model(),
    {
        let mut out: Vec<i16> = Vec::new();
        let mut i: usize = 0;
        assert(old(self).calls() + repeat_chunks(cycles_per_sample as nat, 0) =~= self.calls());
        while i < count
            invariant
                i <= count,
                envelope_safe(self@),
                out@.len() == i,
                forall|j: int|
                    0 <= j < i ==> #[trigger] out@[j] == sid_output(
                        old(self).model(),
                        old(self).calls() + repeat_chunks(
                            cycles_per_sample as nat,
                            (j + 1) as nat,
                        ),
                    ),
                self@ == old(self)@.advance_times(cycles_per_sample as nat, i as nat),
                self.calls() == old(self).calls() + repeat_chunks(
                    cycles_per_sample as nat,
                    i as nat,
                ),
                self.model() == old(self).model(),
            decreases count - i,
        {
            self.advance(cycles_per_sample);
            assert(self.calls() =~= old(self).calls() + repeat_chunks(
                cycles_per_sample as nat,
                (i + 1) as nat,
            ));
            out.push(self.sample());
            i = i + 1;
        }
        out
    }

    /// Applies `ops` in order. The first write to a register past `LAST_REGISTER` stops
    /// the run: it and the operations after it are not applied, and its register is
    /// reported.
    pub fn run(&mut self, ops: &[ChipOp]) -> (r: Result<(), ChipError>)
        requires
            envelope_safe(old(self)@),
            ops_allowed(old(self)@, ops@),
        ensures
            envelope_safe(final(self)@),
            final(self).model() == old(self).model(),
            match r {
                Ok(()) => (forall|i: int| 0 <= i < ops@.len() ==> valid_op(#[trigger] ops@[i]))
                    && final(self)@ == old(self)@.apply_all(ops@) && final(self).calls()
                    == old(self).calls() + expand(ops@),
                Err(e) => exists|k: int|
                    0 <= k < ops@.len() && (forall|i: int| 0 <= i < k ==> valid_op(
                        #[trigger] ops@[i],
                    )) && #[trigger] ops@[k] == (ChipOp::Write {
                        reg: e->reg,
                        value: ops@[k]->value,
                    }) && e->reg > LAST_REGISTER && final(self)@ == old(self)@.apply_all(
                        ops@.take(k),
                    ) && final(self).calls() == old(self).calls() + expand(ops@.take(k)),
            },
    {
        let mut i: usize = 0;
        assert(old(self).calls() + expand(ops@.take(0)) =~= old(self).calls());
        while i < ops.len()
            invariant
                i <= ops@.len(),
                ops_allowed(old(self)@, ops@),
                envelope_safe(self@),
                forall|j: int| 0 <= j < i ==> valid_op(#[trigger] ops@[j]),
                self@ == old(self)@.apply_all(ops@.take(i as int)),
                self.calls() == old(self).calls() + expand(ops@.take(i as int)),
                self.model() == old(self).model(),
            decreases ops@.len() - i,
        {
            proof {
                lemma_ops_allowed_at(old(self)@, ops@, i as int);
            }
            assert(ops@.take(i + 1).drop_last() =~= ops@.take(i as int));
            let ghost before = self.calls();
            match ops[i] {
                ChipOp::Write { reg, value } => {
                    if let Err(e) = self.write(reg, value) {
                        assert(ops@[i as int] == ChipOp::Write { reg: e->reg, value: ops@[i as int]->value });
                        return Err(e);
                    }
                    assert(self.calls() =~= before + op_calls(ops@[i as int]));
                },
                ChipOp::Advance { cycles } => self.advance(cycles),
            }
            i = i + 1;
        }
        assert(ops@.take(ops@.len() as int) =~= ops@);
        Ok(())
    }
}

} // verus!
