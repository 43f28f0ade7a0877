//! Direct playback: a sequence of notes turned into register writes and clock advances
//! for one voice of the chip.
use crate::chip::{
    all_advances, control_ready, envelope_safe, expand, lemma_advances_allowed,
    lemma_advances_total, lemma_apply_all_append, lemma_ops_allowed_append, lemma_ops_allowed_at,
    ops_allowed, sid_output, RES_FILT, total_cycles, valid_op, Chip, ChipError, ChipHistory, ChipOp, SidModel,
};
use vstd::prelude::*;

verus! {

/// Cycles the clock runs per increment while a note sounds or releases.
pub const STEP_CYCLES: u32 = 22;

/// Increments of `STEP_CYCLES` for which every note releases.
pub const RELEASE_STEPS: u32 = 50;

/// The voice's frequency registers, low and high byte.
pub const FREQ_LO: u8 = 0x00;

pub const FREQ_HI: u8 = 0x01;

/// The voice's control register.
pub const CONTROL: u8 = 0x04;

/// Control value: the voice's fixed waveform, keyed on (the envelope starts).
pub const GATE_ON: u8 = 0x21;

/// Control value: the same waveform, keyed off (the envelope releases).
pub const GATE_OFF: u8 = 0x20;

/// The filter mode and master volume register.
pub const MODE_VOLUME: u8 = 0x18;

/// Master volume at full, no filter mode selected.
pub const VOLUME_SETUP: u8 = 0x0f;

/// No resonance, and no voice routed through the filter.
pub const ROUTING_SETUP: u8 = 0x00;

/// One note: the two frequency bytes, and for how many increments the voice stays keyed on.
#[derive(Debug, Clone, Copy, PartialEq, Eq, Structural)]
pub struct NoteEvent {
    pub freq_lo: u8,
    pub freq_hi: u8,
    pub gate_hold_ticks: u32,
}

/// Notes in playback order.
#[derive(Debug, Clone)]
pub struct EventSequence {
    notes: Vec<NoteEvent>,
}

impl View for EventSequence {
    type V = Seq<NoteEvent>;

    closed spec fn view(&self) -> Seq<NoteEvent> {
        self.notes@
    }
}

/// `k` increments of `STEP_CYCLES`.
pub open spec fn steps(k: nat) -> Seq<ChipOp> {
    Seq::new(k, |i: int| ChipOp::Advance { cycles: STEP_CYCLES })
}

/// The writes made once, before the first note.
pub open spec fn setup_ops() -> Seq<ChipOp> {
    seq![
        ChipOp::Write { reg: MODE_VOLUME, value: VOLUME_SETUP },
        ChipOp::Write { reg: RES_FILT, value: ROUTING_SETUP },
    ]
}

/// What one note issues: its frequency, key on, the hold, key off, the
/// release.
pub open spec fn note_ops(n: NoteEvent) -> Seq<ChipOp> {
    seq![
        ChipOp::Write { reg: FREQ_LO, value: n.freq_lo },
        ChipOp::Write { reg: FREQ_HI, value: n.freq_hi },
        ChipOp::Write { reg: CONTROL, value: GATE_ON },
    ] + steps(n.gate_hold_ticks as nat) + seq![ChipOp::Write { reg: CONTROL, value: GATE_OFF }]
        + steps(RELEASE_STEPS as nat)
}

/// What the notes issue, one after another.
pub open spec fn notes_ops(s: Seq<NoteEvent>) -> Seq<ChipOp>
    decreases s.len(),
{
    if s.len() == 0 {
        Seq::empty()
    } else {
        notes_ops(s.drop_last()) + note_ops(s.last())
    }
}

/// What a whole playback issues: the setup, then every note.
pub open spec fn session_ops(s: Seq<NoteEvent>) -> Seq<ChipOp> {
    setup_ops() + notes_ops(s)
}

/// The tune that ships with the player.
pub open spec fn default_notes() -> Seq<NoteEvent> {
    seq![
            NoteEvent { freq_lo: 25, freq_hi: 177, gate_hold_ticks: 250 },
            NoteEvent { freq_lo: 28, freq_hi: 214, gate_hold_ticks: 250 },
            NoteEvent { freq_lo: 25, freq_hi: 177, gate_hold_ticks: 250 },
            NoteEvent { freq_lo: 25, freq_hi: 177, gate_hold_ticks: 250 },
            NoteEvent { freq_lo: 25, freq_hi: 177, gate_hold_ticks: 125 },
            NoteEvent { freq_lo: 28, freq_hi: 214, gate_hold_ticks: 125 },
            NoteEvent { freq_lo: 32, freq_hi: 94, gate_hold_ticks: 750 },
            NoteEvent { freq_lo: 25, freq_hi: 177, gate_hold_ticks: 250 },
            NoteEvent { freq_lo: 28, freq_hi: 214, gate_hold_ticks: 250 },
            NoteEvent { freq_lo: 19, freq_hi: 63, gate_hold_ticks: 250 },
            NoteEvent { freq_lo: 19, freq_hi: 63, gate_hold_ticks: 250 },
            NoteEvent { freq_lo: 19, freq_hi: 63, gate_hold_ticks: 250 },
            NoteEvent { freq_lo: 21, freq_hi: 154, gate_hold_ticks: 63 },
            NoteEvent { freq_lo: 24, freq_hi: 63, gate_hold_ticks: 63 },
            NoteEvent { freq_lo: 25, freq_hi: 177, gate_hold_ticks: 250 },
            NoteEvent { freq_lo: 24, freq_hi: 63, gate_hold_ticks: 125 },
            NoteEvent { freq_lo: 19, freq_hi: 63, gate_hold_ticks: 250 },
    ]
}

impl EventSequence {
    /// A sequence that plays `notes` in the order given.
    pub fn new(notes: Vec<NoteEvent>) -> (r: EventSequence)
        ensures
            r@ == notes@,
    {
        EventSequence { notes }
    }

    /// The tune that ships with the player.
    pub fn default_tune() -> (r: EventSequence)
        ensures
            r@ == default_notes(),
    {
        let notes = vec![
            NoteEvent { freq_lo: 25, freq_hi: 177, gate_hold_ticks: 250 },
            NoteEvent { freq_lo: 28, freq_hi: 214, gate_hold_ticks: 250 },
            NoteEvent { freq_lo: 25, freq_hi: 177, gate_hold_ticks: 250 },
            NoteEvent { freq_lo: 25, freq_hi: 177, gate_hold_ticks: 250 },
            NoteEvent { freq_lo: 25, freq_hi: 177, gate_hold_ticks: 125 },
            NoteEvent { freq_lo: 28, freq_hi: 214, gate_hold_ticks: 125 },
            NoteEvent { freq_lo: 32, freq_hi: 94, gate_hold_ticks: 750 },
            NoteEvent { freq_lo: 25, freq_hi: 177, gate_hold_ticks: 250 },
            NoteEvent { freq_lo: 28, freq_hi: 214, gate_hold_ticks: 250 },
            NoteEvent { freq_lo: 19, freq_hi: 63, gate_hold_ticks: 250 },
            NoteEvent { freq_lo: 19, freq_hi: 63, gate_hold_ticks: 250 },
            NoteEvent { freq_lo: 19, freq_hi: 63, gate_hold_ticks: 250 },
            NoteEvent { freq_lo: 21, freq_hi: 154, gate_hold_ticks: 63 },
            NoteEvent { freq_lo: 24, freq_hi: 63, gate_hold_ticks: 63 },
            NoteEvent { freq_lo: 25, freq_hi: 177, gate_hold_ticks: 250 },
            NoteEvent { freq_lo: 24, freq_hi: 63, gate_hold_ticks: 125 },
            NoteEvent { freq_lo: 19, freq_hi: 63, gate_hold_ticks: 250 },
        ];
        assert(notes@ =~= default_notes());
        EventSequence { notes }
    }

    /// The notes, in playback order.
    pub fn notes(&self) -> (r: &[NoteEvent])
        ensures
            r@ == self@,
    {
        self.notes.as_slice()
    }

    /// The number of notes.
    pub fn len(&self) -> (r: usize)
        ensures
            r == self@.len(),
    {
        self.notes.len()
    }
}

fn push_steps(out: &mut Vec<ChipOp>, k: u32)
    ensures
        final(out)@ == old(out)@ + steps(k as nat),
{
    let mut j: u32 = 0;
    while j < k
        invariant
            j <= k,
            out@ == old(out)@ + steps(j as nat),
        decreases k - j,
    {
        out.push(ChipOp::Advance { cycles: STEP_CYCLES });
        j = j + 1;
        assert(out@ =~= old(out)@ + steps(j as nat));
    }
}

fn push_note(out: &mut Vec<ChipOp>, n: NoteEvent)
    ensures
        final(out)@ == old(out)@ + note_ops(n),
{
    out.push(ChipOp::Write { reg: FREQ_LO, value: n.freq_lo });
    out.push(ChipOp::Write { reg: FREQ_HI, value: n.freq_hi });
    out.push(ChipOp::Write { reg: CONTROL, value: GATE_ON });
    push_steps(out, n.gate_hold_ticks);
    out.push(ChipOp::Write { reg: CONTROL, value: GATE_OFF });
    push_steps(out, RELEASE_STEPS);
    assert(final(out)@ =~= old(out)@ + note_ops(n));
}

/// The operations that play `seq`: the setup writes once, then for each note in order
/// its frequency, key on, hold in increments, key off and release in increments.
pub fn schedule(seq: &EventSequence) -> (r: Vec<ChipOp>)
    ensures
        r@ == session_ops(seq@),
{
    let notes = seq.notes();
    let mut out: Vec<ChipOp> = Vec::new();
    out.push(ChipOp::Write { reg: MODE_VOLUME, value: VOLUME_SETUP });
    out.push(ChipOp::Write { reg: RES_FILT, value: ROUTING_SETUP });
    assert(out@ =~= setup_ops() + notes_ops(notes@.take(0)));
    let mut i: usize = 0;
    while i < notes.len()
        invariant
            i <= notes@.len(),
            notes@ == seq@,
            out@ == setup_ops() + notes_ops(notes@.take(i as int)),
        decreases notes@.len() - i,
    {
        let ghost before = out@;
        push_note(&mut out, notes[i]);
        assert(notes@.take(i + 1).drop_last() =~= notes@.take(i as int));
        i = i + 1;
        assert(out@ =~= setup_ops() + notes_ops(notes@.take(i as int)));
    }
    assert(notes@.take(notes@.len() as int) =~= notes@);
    out
}

proof fn lemma_notes_valid(s: Seq<NoteEvent>)
    ensures
        forall|i: int| 0 <= i < notes_ops(s).len() ==> valid_op(#[trigger] notes_ops(s)[i]),
    decreases s.len(),
{
    if s.len() > 0 {
        lemma_notes_valid(s.drop_last());
        let a = notes_ops(s.drop_last());
        let b = note_ops(s.last());
        assert forall|i: int| 0 <= i < (a + b).len() implies valid_op(#[trigger] (a + b)[i]) by {
            if i >= a.len() {
                assert((a + b)[i] == b[i - a.len()]);
            } else {
                assert((a + b)[i] == a[i]);
            }
        }
    }
}

/// Every operation of a playback writes a register that the chip accepts.
pub proof fn lemma_session_valid(s: Seq<NoteEvent>)
    ensures
        forall|i: int|
            0 <= i < session_ops(s).len() ==> valid_op(#[trigger] session_ops(s)[i]),
{
    lemma_notes_valid(s);
    let a = setup_ops();
    let b = notes_ops(s);
    assert forall|i: int| 0 <= i < (a + b).len() implies valid_op(#[trigger] (a + b)[i]) by {
        if i >= a.len() {
            assert((a + b)[i] == b[i - a.len()]);
        }
    }
}

/// Whether every note of `s` keeps the voice keyed on for at least one increment.
pub open spec fn holds_positive(s: Seq<NoteEvent>) -> bool {
    forall|i: int| 0 <= i < s.len() ==> (#[trigger] s[i]).gate_hold_ticks >= 1
}

/// Whether `chip` can take a playback: its history keeps the emulator's envelopes in
/// range, and its voice's control register was last written `CONTROL_GAP` cycles ago
/// or more.
pub open spec fn ready_to_play(h: ChipHistory) -> bool {
    envelope_safe(h) && control_ready(h, CONTROL)
}

proof fn lemma_single_allowed(h: ChipHistory, op: ChipOp)
    ensures
        ops_allowed(h, seq![op]) == crate::chip::op_allowed(h, op),
{
    assert(seq![op].drop_last() =~= Seq::<ChipOp>::empty());
    assert(seq![op].last() == op);
    assert(h.apply_all(Seq::<ChipOp>::empty()) == h);
    assert(ops_allowed(h, Seq::<ChipOp>::empty()));
}

/// The setup is allowed on a chip ready to play, and leaves it ready.
proof fn lemma_setup_allowed(h: ChipHistory)
    requires
        control_ready(h, CONTROL),
    ensures
        ops_allowed(h, setup_ops()),
        control_ready(h.apply_all(setup_ops()), CONTROL),
{
    let a = ChipOp::Write { reg: MODE_VOLUME, value: VOLUME_SETUP };
    let b = ChipOp::Write { reg: RES_FILT, value: ROUTING_SETUP };
    let ha = h.write(MODE_VOLUME, VOLUME_SETUP);
    let h1 = ha.write(RES_FILT, ROUTING_SETUP);
    lemma_single_allowed(h, a);
    lemma_single_allowed(ha, b);
    assert(seq![a] + seq![b] =~= setup_ops());
    lemma_ops_allowed_append(h, seq![a], seq![b]);
    lemma_apply_all_append(h, seq![a], seq![b]);
    assert(h.apply_all(seq![a]) == ha) by {
        assert(seq![a].drop_last() =~= Seq::<ChipOp>::empty());
    }
    assert(ha.apply_all(seq![b]) == h1) by {
        assert(seq![b].drop_last() =~= Seq::<ChipOp>::empty());
    }
    assert forall|i: int|
        0 <= i < h1.writes.len() && (#[trigger] h1.writes[i]).1 == CONTROL implies h1.writes[i].0
        + crate::chip::CONTROL_GAP <= h1.now by {
        assert(i < h.writes.len());
        assert(h1.writes[i] == h.writes[i]);
    }
}

/// A note that holds for at least one increment is allowed on a chip ready to play,
/// and leaves it ready.
proof fn lemma_note_allowed(h: ChipHistory, n: NoteEvent)
    requires
        control_ready(h, CONTROL),
        n.gate_hold_ticks >= 1,
    ensures
        ops_allowed(h, note_ops(n)),
        control_ready(h.apply_all(note_ops(n)), CONTROL),
{
    let a = ChipOp::Write { reg: FREQ_LO, value: n.freq_lo };
    let b = ChipOp::Write { reg: FREQ_HI, value: n.freq_hi };
    let c = ChipOp::Write { reg: CONTROL, value: GATE_ON };
    let w = seq![a, b, c];
    let hold = steps(n.gate_hold_ticks as nat);
    let off = seq![ChipOp::Write { reg: CONTROL, value: GATE_OFF }];
    let rel = steps(RELEASE_STEPS as nat);
    assert(note_ops(n) == w + hold + off + rel);
    // the three writes
    let ha = h.write(FREQ_LO, n.freq_lo);
    let hb = ha.write(FREQ_HI, n.freq_hi);
    assert forall|i: int|
        0 <= i < hb.writes.len() && (#[trigger] hb.writes[i]).1 == CONTROL implies hb.writes[i].0
        + crate::chip::CONTROL_GAP <= hb.now by {
        assert(i < h.writes.len());
        assert(hb.writes[i] == h.writes[i]);
    }
    lemma_single_allowed(h, a);
    lemma_ops_allowed_append(h, seq![a], seq![b]);
    lemma_single_allowed(ha, b);
    assert(h.apply_all(seq![a]) == ha) by {
        assert(seq![a].drop_last() =~= Seq::<ChipOp>::empty());
    }
    lemma_apply_all_append(h, seq![a], seq![b]);
    assert(ha.apply_all(seq![b]) == hb) by {
        assert(seq![b].drop_last() =~= Seq::<ChipOp>::empty());
    }
    assert(seq![a] + seq![b] =~= seq![a, b]);
    lemma_ops_allowed_append(h, seq![a, b], seq![c]);
    lemma_single_allowed(hb, c);
    assert(seq![a, b] + seq![c] =~= w);
    lemma_apply_all_append(h, seq![a, b], seq![c]);
    let hc = hb.write(CONTROL, GATE_ON);
    assert(hb.apply_all(seq![c]) == hc) by {
        assert(seq![c].drop_last() =~= Seq::<ChipOp>::empty());
    }
    assert(h.apply_all(w) == hc);
    // the hold
    lemma_steps_total(n.gate_hold_ticks as nat);
    lemma_advances_allowed(hc, hold);
    lemma_ops_allowed_append(h, w, hold);
    lemma_apply_all_append(h, w, hold);
    lemma_advances_total(hc, hold);
    let hx = hc.advance(total_cycles(hold));
    assert(total_cycles(hold) >= 22) by (nonlinear_arith)
        requires
            total_cycles(hold) == n.gate_hold_ticks * 22,
            n.gate_hold_ticks >= 1,
    ;
    assert forall|i: int|
        0 <= i < hx.writes.len() && (#[trigger] hx.writes[i]).1 == CONTROL implies hx.writes[i].0
        + crate::chip::CONTROL_GAP <= hx.now by {
        if i < h.writes.len() {
            assert(hx.writes[i] == h.writes[i]);
        }
    }
    // key off
    lemma_single_allowed(hx, off[0]);
    assert(off == seq![off[0]]);
    lemma_ops_allowed_append(h, w + hold, off);
    lemma_apply_all_append(h, w + hold, off);
    let hy = hx.write(CONTROL, GATE_OFF);
    assert(hx.apply_all(off) == hy) by {
        assert(off.drop_last() =~= Seq::<ChipOp>::empty());
    }
    // the release
    lemma_steps_total(RELEASE_STEPS as nat);
    lemma_advances_allowed(hy, rel);
    lemma_ops_allowed_append(h, w + hold + off, rel);
    lemma_apply_all_append(h, w + hold + off, rel);
    lemma_advances_total(hy, rel);
    let hz = hy.advance(total_cycles(rel));
    assert forall|i: int|
        0 <= i < hz.writes.len() && (#[trigger] hz.writes[i]).1 == CONTROL implies hz.writes[i].0
        + crate::chip::CONTROL_GAP <= hz.now by {
        if i < hx.writes.len() {
            assert(hz.writes[i] == hx.writes[i]);
        }
    }
}

proof fn lemma_notes_allowed(h: ChipHistory, s: Seq<NoteEvent>)
    requires
        control_ready(h, CONTROL),
        holds_positive(s),
    ensures
        ops_allowed(h, notes_ops(s)),
        control_ready(h.apply_all(notes_ops(s)), CONTROL),
    decreases s.len(),
{
    if s.len() > 0 {
        assert(holds_positive(s.drop_last())) by {
            assert forall|i: int| 0 <= i < s.drop_last().len() implies (#[trigger] s.drop_last()[i]).gate_hold_ticks >= 1 by {
                assert(s.drop_last()[i] == s[i]);
            }
        }
        lemma_notes_allowed(h, s.drop_last());
        let a = notes_ops(s.drop_last());
        assert(s.last() == s[s.len() - 1]);
        lemma_note_allowed(h.apply_all(a), s.last());
        lemma_ops_allowed_append(h, a, note_ops(s.last()));
        lemma_apply_all_append(h, a, note_ops(s.last()));
    }
}

/// A whole playback of notes that each hold for at least one increment is allowed on
/// a chip ready to play, and leaves it ready.
pub proof fn lemma_session_allowed(h: ChipHistory, s: Seq<NoteEvent>)
    requires
        control_ready(h, CONTROL),
        holds_positive(s),
    ensures
        ops_allowed(h, session_ops(s)),
        control_ready(h.apply_all(session_ops(s)), CONTROL),
{
    lemma_setup_allowed(h);
    lemma_notes_allowed(h.apply_all(setup_ops()), s);
    lemma_ops_allowed_append(h, setup_ops(), notes_ops(s));
    lemma_apply_all_append(h, setup_ops(), notes_ops(s));
}

/// Plays `seq` on `chip`: applies the setup writes once, then every note in order, in
/// `STEP_CYCLES` increments. Every register it writes is valid, so it always succeeds.
pub fn play(chip: &mut Chip, seq: &EventSequence) -> (r: Result<(), ChipError>)
    requires
        ready_to_play(old(chip)@),
        holds_positive(seq@),
    ensures
        r is Ok,
        ready_to_play(final(chip)@),
        final(chip)@ == old(chip)@.apply_all(session_ops(seq@)),
        final(chip).calls() == old(chip).calls() + expand(session_ops(seq@)),
        final(chip).model() == old(chip).model(),
{
    let ops = schedule(seq);
    proof {
        lemma_session_valid(seq@);
        lemma_session_allowed(chip@, seq@);
    }
    chip.run(ops.as_slice())
}

/// Applies the setup writes, as `play` does before the first note.
pub fn play_setup(chip: &mut Chip) -> (r: Result<(), ChipError>)
    requires
        ready_to_play(old(chip)@),
    ensures
        r is Ok,
        ready_to_play(final(chip)@),
        final(chip)@ == old(chip)@.apply_all(setup_ops()),
        final(chip).calls() == old(chip).calls() + expand(setup_ops()),
        final(chip).model() == old(chip).model(),
{
    let ops: Vec<ChipOp> = vec![
        ChipOp::Write { reg: MODE_VOLUME, value: VOLUME_SETUP },
        ChipOp::Write { reg: RES_FILT, value: ROUTING_SETUP },
    ];
    proof {
        lemma_setup_allowed(chip@);
    }
    assert(ops@ =~= setup_ops());
    assert(valid_op(ops@[0]) && valid_op(ops@[1]));
    chip.run(ops.as_slice())
}

/// Plays one note, as `play` does for each: a player that stops between notes calls
/// `play_setup` once and then this per note.
pub fn play_note(chip: &mut Chip, n: NoteEvent) -> (r: Result<(), ChipError>)
    requires
        ready_to_play(old(chip)@),
        n.gate_hold_ticks >= 1,
    ensures
        r is Ok,
        ready_to_play(final(chip)@),
        final(chip)@ == old(chip)@.apply_all(note_ops(n)),
        final(chip).calls() == old(chip).calls() + expand(note_ops(n)),
        final(chip).model() == old(chip).model(),
{
    let mut ops: Vec<ChipOp> = Vec::new();
    push_note(&mut ops, n);
    assert(ops@ =~= note_ops(n));
    proof {
        lemma_note_allowed(chip@, n);
        lemma_notes_valid(seq![n]);
        assert(seq![n].drop_last() =~= Seq::<NoteEvent>::empty());
        assert(seq![n].last() == n);
        assert(notes_ops(Seq::<NoteEvent>::empty()) =~= Seq::<ChipOp>::empty());
        assert(notes_ops(seq![n]) =~= note_ops(n));
    }
    chip.run(ops.as_slice())
}

/// The samples that playing `ops` from `calls` yields: the chip's output after each
/// advance.
pub open spec fn samples_of(model: SidModel, calls: Seq<ChipOp>, ops: Seq<ChipOp>) -> Seq<i16>
    decreases ops.len(),
{
    if ops.len() == 0 {
        Seq::empty()
    } else {
        samples_of(model, calls, ops.drop_last()) + if ops.last() is Advance {
            seq![sid_output(model, calls + expand(ops))]
        } else {
            Seq::empty()
        }
    }
}

/// Plays `seq` on `chip` as `play` does, and takes the chip's output sample after
/// every clock increment: one sample per `STEP_CYCLES` cycles.
pub fn play_sampled(chip: &mut Chip, seq: &EventSequence) -> (r: Vec<i16>)
    requires
        ready_to_play(old(chip)@),
        holds_positive(seq@),
    ensures
        r@ == samples_of(old(chip).model(), old(chip).calls(), session_ops(seq@)),
        ready_to_play(final(chip)@),
        final(chip)@ == old(chip)@.apply_all(session_ops(seq@)),
        final(chip).calls() == old(chip).calls() + expand(session_ops(seq@)),
        final(chip).model() == old(chip).model(),
{
    let ops = schedule(seq);
    proof {
        lemma_session_valid(seq@);
        lemma_session_allowed(chip@, seq@);
    }
    let mut out: Vec<i16> = Vec::new();
    let mut i: usize = 0;
    assert(old(chip).calls() + expand(ops@.take(0)) =~= old(chip).calls());
    while i < ops.len()
        invariant
            i <= ops@.len(),
            ops@ == session_ops(seq@),
            ops_allowed(old(chip)@, ops@),
            forall|j: int| 0 <= j < ops@.len() ==> valid_op(#[trigger] ops@[j]),
            envelope_safe(chip@),
            out@ == samples_of(old(chip).model(), old(chip).calls(), ops@.take(i as int)),
            chip@ == old(chip)@.apply_all(ops@.take(i as int)),
            chip.calls() == old(chip).calls() + expand(ops@.take(i as int)),
            chip.model() == old(chip).model(),
        decreases ops@.len() - i,
    {
        proof {
            crate::chip::lemma_ops_allowed_at(old(chip)@, ops@, i as int);
        }
        let ghost t = ops@.take(i + 1);
        assert(t.drop_last() =~= ops@.take(i as int));
        assert(t.last() == ops@[i as int]);
        assert(valid_op(ops@[i as int]));
        let ghost before = chip.calls();
        match ops[i] {
            ChipOp::Write { reg, value } => {
                let _ = chip.write(reg, value);
                assert(chip.calls() =~= before + crate::chip::op_calls(ops@[i as int]));
            },
            ChipOp::Advance { cycles } => {
                chip.advance(cycles);
                assert(chip.calls() =~= old(chip).calls() + expand(t));
                out.push(chip.sample());
            },
        }
        i = i + 1;
        assert(out@ =~= samples_of(old(chip).model(), old(chip).calls(), t));
    }
    assert(ops@.take(ops@.len() as int) =~= ops@);
    out
}

proof fn lemma_steps_total(k: nat)
    ensures
        all_advances(steps(k)),
        total_cycles(steps(k)) == k * (STEP_CYCLES as nat),
    decreases k,
{
    if k > 0 {
        assert(steps(k).drop_last() =~= steps((k - 1) as nat));
        lemma_steps_total((k - 1) as nat);
        assert((k - 1) * 22 + 22 == k * 22) by (nonlinear_arith);
    }
}

/// Holding and releasing a note in increments records the same history of writes and
/// total cycles as single clock jumps of the whole hold and the whole release would.
pub proof fn lemma_note_jumps(h: ChipHistory, n: NoteEvent)
    ensures
        h.apply_all(note_ops(n)) == h.write(FREQ_LO, n.freq_lo).write(FREQ_HI, n.freq_hi).write(
            CONTROL,
            GATE_ON,
        ).advance((n.gate_hold_ticks * STEP_CYCLES) as nat).write(CONTROL, GATE_OFF).advance(
            (RELEASE_STEPS * STEP_CYCLES) as nat,
        ),
{
    let w = seq![
        ChipOp::Write { reg: FREQ_LO, value: n.freq_lo },
        ChipOp::Write { reg: FREQ_HI, value: n.freq_hi },
        ChipOp::Write { reg: CONTROL, value: GATE_ON },
    ];
    let hold = steps(n.gate_hold_ticks as nat);
    let off = seq![ChipOp::Write { reg: CONTROL, value: GATE_OFF }];
    let rel = steps(RELEASE_STEPS as nat);
    lemma_apply_all_append(h, w + hold + off, rel);
    lemma_apply_all_append(h, w + hold, off);
    lemma_apply_all_append(h, w, hold);
    let h1 = h.apply_all(w);
    assert(w.drop_last().drop_last().drop_last() =~= Seq::<ChipOp>::empty());
    assert(h.apply_all(w.drop_last().drop_last().drop_last()) == h);
    assert(w.drop_last().drop_last().last() == ChipOp::Write { reg: FREQ_LO, value: n.freq_lo });
    assert(h.apply_all(w.drop_last().drop_last()) == h.write(FREQ_LO, n.freq_lo));
    assert(h.apply_all(w.drop_last()) == h.write(FREQ_LO, n.freq_lo).write(FREQ_HI, n.freq_hi));
    assert(h1 == h.write(FREQ_LO, n.freq_lo).write(FREQ_HI, n.freq_hi).write(CONTROL, GATE_ON));
    lemma_steps_total(n.gate_hold_ticks as nat);
    lemma_advances_total(h1, hold);
    let h2 = h1.apply_all(hold);
    assert(off.drop_last() =~= Seq::<ChipOp>::empty());
    assert(h2.apply_all(off.drop_last()) == h2);
    assert(h2.apply_all(off) == h2.write(CONTROL, GATE_OFF));
    lemma_steps_total(RELEASE_STEPS as nat);
    lemma_advances_total(h2.apply_all(off), rel);
}

} // verus!
