use sidplay::chip::{Chip, ChipError, ChipOp, SidModel, LAST_REGISTER, RES_FILT};
use sidplay::schedule::{
    play, play_note, play_sampled, play_setup, schedule, EventSequence, NoteEvent, CONTROL, FREQ_HI, FREQ_LO, GATE_OFF, GATE_ON,
    MODE_VOLUME, RELEASE_STEPS, ROUTING_SETUP, STEP_CYCLES, VOLUME_SETUP,
};

fn one_note() -> EventSequence {
    EventSequence::new(vec![NoteEvent { freq_lo: 25, freq_hi: 177, gate_hold_ticks: 250 }])
}

fn writes(ops: &[ChipOp]) -> Vec<(u8, u8)> {
    ops.iter()
        .filter_map(|op| match op {
            ChipOp::Write { reg, value } => Some((*reg, *value)),
            ChipOp::Advance { .. } => None,
        })
        .collect()
}

fn cycles(ops: &[ChipOp]) -> u64 {
    ops.iter()
        .map(|op| match op {
            ChipOp::Advance { cycles } => *cycles as u64,
            ChipOp::Write { .. } => 0,
        })
        .sum()
}

#[test]
fn one_note_issues_writes_in_order() {
    let ops = schedule(&one_note());
    assert_eq!(
        writes(&ops),
        vec![
            (MODE_VOLUME, VOLUME_SETUP),
            (RES_FILT, ROUTING_SETUP),
            (FREQ_LO, 25),
            (FREQ_HI, 177),
            (CONTROL, GATE_ON),
            (CONTROL, GATE_OFF),
        ]
    );
    assert_eq!(cycles(&ops), (250 + RELEASE_STEPS as u64) * STEP_CYCLES as u64);
    assert_eq!(cycles(&ops), 6600);
    assert_eq!(ops.len(), 6 + 250 + 50);
    assert_eq!(ops[5], ChipOp::Advance { cycles: 22 });
    assert_eq!(ops[254], ChipOp::Advance { cycles: 22 });
    assert_eq!(ops[255], ChipOp::Write { reg: CONTROL, value: GATE_OFF });
    assert_eq!(ops[256], ChipOp::Advance { cycles: 22 });
}

#[test]
fn setup_runs_once() {
    let seq = EventSequence::new(vec![
        NoteEvent { freq_lo: 1, freq_hi: 2, gate_hold_ticks: 0 },
        NoteEvent { freq_lo: 3, freq_hi: 4, gate_hold_ticks: 1 },
    ]);
    let ops = schedule(&seq);
    let w = writes(&ops);
    assert_eq!(w.iter().filter(|x| **x == (MODE_VOLUME, VOLUME_SETUP)).count(), 1);
    assert_eq!(w.iter().filter(|x| **x == (RES_FILT, ROUTING_SETUP)).count(), 1);
    assert_eq!(w[2], (FREQ_LO, 1));
    assert_eq!(w[6], (FREQ_LO, 3));
    assert_eq!(cycles(&ops), (0 + 50 + 1 + 50) * 22);
}

#[test]
fn empty_sequence_is_setup_only() {
    let ops = schedule(&EventSequence::new(vec![]));
    assert_eq!(
        ops,
        vec![
            ChipOp::Write { reg: MODE_VOLUME, value: VOLUME_SETUP },
            ChipOp::Write { reg: RES_FILT, value: ROUTING_SETUP },
        ]
    );
}

#[test]
fn default_tune_has_seventeen_notes() {
    let seq = EventSequence::default_tune();
    assert_eq!(seq.len(), 17);
    assert_eq!(seq.notes()[0], NoteEvent { freq_lo: 25, freq_hi: 177, gate_hold_ticks: 250 });
    assert_eq!(seq.notes()[6], NoteEvent { freq_lo: 32, freq_hi: 94, gate_hold_ticks: 750 });
    assert_eq!(seq.notes()[16], NoteEvent { freq_lo: 19, freq_hi: 63, gate_hold_ticks: 250 });
}

#[test]
fn play_succeeds_on_chip() {
    let mut chip = Chip::new(SidModel::Mos6581);
    assert_eq!(play(&mut chip, &one_note()), Ok(()));
}

#[test]
fn invalid_register_is_refused() {
    let mut chip = Chip::new(SidModel::Mos6581);
    assert_eq!(chip.write(LAST_REGISTER, 0x0f), Ok(()));
    assert_eq!(chip.write(0x19, 1), Err(ChipError::InvalidRegister { reg: 0x19 }));
}

#[test]
fn run_stops_at_invalid_register() {
    let mut chip = Chip::new(SidModel::Mos8580);
    let ops = [
        ChipOp::Write { reg: 0x18, value: 0x0f },
        ChipOp::Advance { cycles: 100 },
        ChipOp::Write { reg: 0x1d, value: 0 },
        ChipOp::Write { reg: 0x00, value: 1 },
    ];
    assert_eq!(chip.run(&ops), Err(ChipError::InvalidRegister { reg: 0x1d }));
    assert_eq!(chip.run(&ops[..2]), Ok(()));
}

#[test]
fn render_gives_requested_samples() {
    let mut chip = Chip::new(SidModel::Mos6581);
    let _ = play(&mut chip, &one_note());
    assert_eq!(chip.render(64, 22).len(), 64);
    assert_eq!(chip.render(0, 22).len(), 0);
}

fn setup_voice(chip: &mut Chip) {
    for (reg, value) in [(0x18, 0x0f), (0x00, 25), (0x01, 177), (0x04, 0x21)] {
        chip.write(reg, value).unwrap();
    }
}

#[test]
fn one_jump_equals_equal_increments_in_register_state() {
    let mut a = Chip::new(SidModel::Mos6581);
    let mut b = Chip::new(SidModel::Mos6581);
    setup_voice(&mut a);
    setup_voice(&mut b);
    a.advance(220);
    for _ in 0..10 {
        b.advance(22);
    }
    assert_eq!(format!("{:?}", a.sid().read_state()), format!("{:?}", b.sid().read_state()));
}

#[test]
fn sampled_play_gives_one_sample_per_increment() {
    let mut chip = Chip::new(SidModel::Mos6581);
    assert_eq!(play_sampled(&mut chip, &one_note()).len(), 300);
    let mut other = Chip::new(SidModel::Mos6581);
    play(&mut other, &one_note()).unwrap();
    assert_eq!(format!("{:?}", chip.sid().read_state()), format!("{:?}", other.sid().read_state()));
}

#[test]
fn long_advance_is_split() {
    let mut chip = Chip::new(SidModel::Mos6581);
    for (reg, value) in [(0x00, 0xff), (0x01, 0xff), (0x04, 0x81), (0x18, 0x0f)] {
        chip.write(reg, value).unwrap();
    }
    chip.advance(1_000_000);
    let _ = chip.sample();
}

#[test]
fn shortest_hold_plays_on_fresh_chip() {
    let seq = EventSequence::new(vec![
        NoteEvent { freq_lo: 25, freq_hi: 177, gate_hold_ticks: 1 },
        NoteEvent { freq_lo: 28, freq_hi: 214, gate_hold_ticks: 1 },
    ]);
    let mut chip = Chip::new(SidModel::Mos6581);
    assert_eq!(play(&mut chip, &seq), Ok(()));
    let mut other = Chip::new(SidModel::Mos8580);
    assert_eq!(play_sampled(&mut other, &seq).len(), 2 * (1 + 50));
}

#[test]
fn note_by_note_matches_whole_playback() {
    let tune = EventSequence::default_tune();
    let mut whole = Chip::new(SidModel::Mos6581);
    play(&mut whole, &tune).unwrap();
    let mut stepwise = Chip::new(SidModel::Mos6581);
    play_setup(&mut stepwise).unwrap();
    for n in tune.notes() {
        play_note(&mut stepwise, *n).unwrap();
    }
    assert_eq!(format!("{:?}", whole.sid().read_state()), format!("{:?}", stepwise.sid().read_state()));
    assert_eq!(whole.sample(), stepwise.sample());
}

#[test]
fn sampled_play_matches_sampling_by_hand() {
    let seq = one_note();
    let mut chip = Chip::new(SidModel::Mos6581);
    let samples = play_sampled(&mut chip, &seq);
    let mut other = Chip::new(SidModel::Mos6581);
    let mut by_hand = Vec::new();
    for op in schedule(&seq) {
        match op {
            ChipOp::Write { reg, value } => other.write(reg, value).unwrap(),
            ChipOp::Advance { cycles } => {
                other.advance(cycles);
                by_hand.push(other.sample());
            }
        }
    }
    assert_eq!(samples, by_hand);
    assert!(samples.iter().any(|x| *x != samples[0]));
}
