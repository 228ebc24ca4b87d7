use cadenza::theory::chord::{Chord, ChordQuality, Extension};
use cadenza::theory::interval::Interval;
use cadenza::theory::phrase::Phrase;
use cadenza::theory::pitch::{Pitch, PitchClass};
use cadenza::theory::rhythm::{Duration, NoteEvent, TimeSignature};
use cadenza::theory::scale::{Mode, Scale};
use cadenza::theory::validation::ValidationLevel;

fn center(pitches: &[Pitch]) -> f32 {
    pitches.iter().map(|p| p.0 as f32).sum::<f32>() / pitches.len() as f32
}

#[test]
fn intervals_major7_half_dim_dom7_with_extensions() {
    let cmaj7 = Chord::new(PitchClass(0), ChordQuality::Major7);
    assert_eq!(cmaj7.intervals(), vec![0, 4, 7, 11]);

    let bm7b5 = Chord::new(PitchClass(11), ChordQuality::HalfDiminished);
    assert_eq!(bm7b5.intervals(), vec![0, 3, 6, 10]);

    let mut g7b9 = Chord::new(PitchClass(7), ChordQuality::Dominant7);
    g7b9.extensions.push(Extension::Flat9);
    assert_eq!(g7b9.intervals(), vec![0, 1, 4, 7, 10]);

    let mut alt = Chord::new(PitchClass(7), ChordQuality::Dominant7);
    alt.extensions.push(Extension::Sharp9);
    alt.extensions.push(Extension::Sharp11);
    alt.extensions.push(Extension::Natural13);
    assert_eq!(alt.intervals(), vec![0, 3, 4, 6, 7, 9, 10]);

    let mut maj9 = Chord::new(PitchClass(0), ChordQuality::Major7);
    maj9.extensions.push(Extension::Add9);
    assert_eq!(maj9.intervals(), vec![0, 4, 7, 11, 14]);
}

#[test]
fn pitches_in_octave_4_are_correct_midi_numbers() {
    let c = Chord::new(PitchClass(0), ChordQuality::Major).pitches(4);
    assert_eq!(c, vec![Pitch(60), Pitch(64), Pitch(67)]);

    let am = Chord::new(PitchClass(9), ChordQuality::Minor).pitches(4);
    assert_eq!(am, vec![Pitch(69), Pitch(72), Pitch(76)]);

    let g7 = Chord::new(PitchClass(7), ChordQuality::Dominant7).pitches(4);
    assert_eq!(g7, vec![Pitch(67), Pitch(71), Pitch(74), Pitch(77)]);
}

#[test]
fn voice_lead_from_minimises_center_distance() {
    let prev = Chord::new(PitchClass(0), ChordQuality::Major);
    let prev_center = center(&prev.pitches(4));

    let next = Chord::new(PitchClass(7), ChordQuality::Major);
    let naive = next.pitches(4);
    let naive_dist = (center(&naive) - prev_center).abs();

    let voiced = next.voice_lead_from(&prev, 4);
    let voiced_dist = (center(&voiced) - prev_center).abs();

    assert!(
        voiced_dist < naive_dist,
        "voice-led center {} (dist {}) should beat naive center {} (dist {})",
        center(&voiced),
        voiced_dist,
        center(&naive),
        naive_dist,
    );
}

#[test]
fn voice_led_chord_lies_an_octave_lower() {
    let prev = Chord::new(PitchClass(0), ChordQuality::Major);
    let next = Chord::new(PitchClass(7), ChordQuality::Major);
    assert_eq!(next.voice_lead_from(&prev, 4), vec![Pitch(55), Pitch(59), Pitch(62)]);
    assert_eq!(prev.voice_lead_from(&prev, 4), vec![Pitch(60), Pitch(64), Pitch(67)]);
}

#[test]
fn chord_steps_ascend_without_repetition() {
    let mut c = Chord::new(PitchClass(0), ChordQuality::Minor7);
    c.extensions.push(Extension::Sharp9);
    c.extensions.push(Extension::Add11);
    assert_eq!(c.intervals(), vec![0, 3, 7, 10, 17]);
    assert!(c.bass.is_none());
}

#[test]
fn chord_pitches_above_the_range_are_left_out() {
    assert_eq!(
        Chord::new(PitchClass(7), ChordQuality::Major).pitches(9),
        vec![Pitch(127)],
    );
}

fn ev(pitch: u8, start: u32, duration: u32) -> NoteEvent {
    NoteEvent { pitch, start, duration, velocity: 100, channel: 0, voice: 1, slur_group: None }
}

fn sample_phrase() -> Phrase {
    let mut p = Phrase::new(1, "test", TimeSignature::four_four(), 120);
    p.bars = 1;
    p.events = vec![ev(60, 0, 480), ev(64, 480, 480), ev(67, 960, 480)];
    p
}

#[test]
fn transpose_shifts_all_pitches_and_stays_in_range() {
    let p = sample_phrase().transpose(7);
    assert_eq!(p.events.iter().map(|e| e.pitch).collect::<Vec<_>>(), vec![67, 71, 74]);
    assert!(p.events.iter().all(|e| e.pitch <= 127));

    let down = sample_phrase().transpose(-12);
    assert_eq!(down.events.iter().map(|e| e.pitch).collect::<Vec<_>>(), vec![48, 52, 55]);
}

#[test]
fn retrograde_reverses_event_order_and_preserves_duration() {
    let original = sample_phrase();
    let total = original.duration_ticks();
    let retro = original.retrograde();

    assert_eq!(retro.duration_ticks(), total);

    let original_pitches: Vec<u8> = original.events.iter().map(|e| e.pitch).collect();
    let retro_pitches: Vec<u8> = retro.events.iter().map(|e| e.pitch).collect();
    let mut expected = original_pitches.clone();
    expected.reverse();
    assert_eq!(retro_pitches, expected);

    for (orig, r) in original.events.iter().zip(retro.events.iter().rev()) {
        assert_eq!(r.start, total - (orig.start + orig.duration));
        assert_eq!(r.duration, orig.duration);
    }
}

#[test]
fn invert_keeps_axis_and_mirrors_intervals() {
    let mut p = Phrase::new(1, "inv", TimeSignature::four_four(), 120);
    p.bars = 1;
    p.events = vec![ev(60, 0, 240), ev(64, 240, 240), ev(67, 480, 240)];

    let inverted = p.invert(Pitch(60));

    assert_eq!(inverted.events[0].pitch, 60);
    assert_eq!(inverted.events[1].pitch, 56);
    assert_eq!(inverted.events[2].pitch, 53);

    for (orig, inv) in p.events.iter().zip(inverted.events.iter()) {
        let original_offset = orig.pitch as i16 - 60;
        let inverted_offset = inv.pitch as i16 - 60;
        assert_eq!(original_offset, -inverted_offset);
    }
}

#[test]
fn validate_against_scale_flags_only_chromatic_notes() {
    let mut p = sample_phrase();
    p.key = Some(Scale::new(PitchClass(0), Mode::Major));

    assert!(p.validate_against_scale().is_empty());

    p.events.push(ev(61, 1440, 240));
    let warnings = p.validate_against_scale();
    assert_eq!(warnings.len(), 1);
    assert!(warnings[0].message.contains("C#"));

    p.key = None;
    assert!(p.validate_against_scale().is_empty());
}

#[test]
fn warnings_name_pitch_tick_and_scale() {
    let mut p = sample_phrase();
    p.key = Some(Scale::new(PitchClass(0), Mode::Major));
    p.events.push(ev(61, 1440, 240));
    let warnings = p.validate_against_scale();
    assert_eq!(warnings[0].message, "pitch C# (tick 1440) outside C scale");
    assert_eq!(warnings[0].level, ValidationLevel::Info);
}

#[test]
fn transposing_there_and_back_changes_nothing() {
    let p = sample_phrase();
    let back = p.transpose(5).transpose(-5);
    assert_eq!(back.events, p.events);
    let twice = p.invert(Pitch(64)).invert(Pitch(64));
    assert_eq!(twice.events, p.events);
}

#[test]
fn transposing_stops_at_the_ends_of_the_range() {
    let mut p = sample_phrase();
    p.events = vec![ev(2, 0, 10), ev(120, 0, 10)];
    assert_eq!(p.transpose(-5).events[0].pitch, 0);
    assert_eq!(p.transpose(12).events[1].pitch, 127);
    assert_eq!(p.invert(Pitch(100)).events[0].pitch, 127);
}

#[test]
fn quantizing_snaps_to_the_grid_and_keeps_a_length() {
    let mut p = sample_phrase();
    p.events = vec![ev(60, 130, 250), ev(62, 359, 10)];
    p.quantize(Duration(Duration::EIGHTH));
    assert_eq!(p.events[0].start, 240);
    assert_eq!(p.events[0].duration, 240);
    assert_eq!(p.events[1].start, 240);
    assert_eq!(p.events[1].duration, 240);
    let once: Vec<NoteEvent> = p.events.clone();
    p.quantize(Duration(Duration::EIGHTH));
    assert_eq!(p.events, once);
}

#[test]
fn pitch_name_all_twelve_classes() {
    let expected = ["C", "C#", "D", "D#", "E", "F", "F#", "G", "G#", "A", "A#", "B"];
    for (i, name) in expected.iter().enumerate() {
        assert_eq!(Pitch(60 + i as u8).name(), *name);
    }
    assert_eq!(Pitch(72).name(), "C");
    assert_eq!(Pitch(0).name(), "C");
}

#[test]
fn pitch_transpose_boundaries() {
    assert_eq!(Pitch(0).transpose(Interval(0)), Some(Pitch(0)));
    assert_eq!(Pitch(127).transpose(Interval(0)), Some(Pitch(127)));
    assert_eq!(Pitch(60).transpose(Interval(Interval::PERFECT_FIFTH)), Some(Pitch(67)));
    assert_eq!(Pitch(127).transpose(Interval(1)), None);
    assert_eq!(Pitch(120).transpose(Interval(Interval::OCTAVE)), None);
    assert_eq!(Pitch(0).transpose(Interval(-1)), None);
}

#[test]
fn pitch_class_parse_sharps_flats_edges() {
    assert_eq!(PitchClass::parse("C#"), Some(PitchClass(1)));
    assert_eq!(PitchClass::parse("f#"), Some(PitchClass(6)));
    assert_eq!(PitchClass::parse("Bb"), Some(PitchClass(10)));
    assert_eq!(PitchClass::parse("Db"), Some(PitchClass(1)));
    assert_eq!(PitchClass::parse("eb"), Some(PitchClass(3)));
    assert_eq!(PitchClass::parse("B"), Some(PitchClass(11)));
    assert_eq!(PitchClass::parse("c"), Some(PitchClass(0)));
    assert_eq!(PitchClass::parse("Cb"), None);
    assert_eq!(PitchClass::parse("H"), None);
    assert_eq!(PitchClass::parse(""), None);
}

#[test]
fn pitch_octaves_labels_and_distances() {
    assert_eq!(Pitch(60).octave(), 4);
    assert_eq!(Pitch(0).octave(), -1);
    assert_eq!(Pitch(60).label(), "C4");
    assert_eq!(Pitch(1).label(), "C#-1");
    assert_eq!(Pitch(60).interval_to(Pitch(67)), Interval(7));
    assert_eq!(Pitch(67).interval_to(Pitch(60)), Interval(-7));
    assert_eq!(Pitch(60).pc(), PitchClass(0));
    assert_eq!(Pitch::new(127), Some(Pitch(127)));
    assert_eq!(Pitch::new(128), None);
    assert_eq!(PitchClass(9).in_octave(4), Some(Pitch(69)));
    assert_eq!(PitchClass(8).in_octave(9), None);
    assert_eq!(PitchClass(0).in_octave(-2), None);
}

#[test]
fn intervals_are_negated_and_measured() {
    assert_eq!(Interval(Interval::MAJOR_THIRD).negate(), Interval(-4));
    assert_eq!(Interval(-7).abs(), 7);
    assert_eq!(Interval(-7).semitones(), -7);
    assert!(Interval(Interval::TRITONE).is_tritone());
    assert!(!Interval(Interval::PERFECT_FOURTH).is_tritone());
}

fn pcs(values: &[u8]) -> Vec<PitchClass> {
    values.iter().map(|&v| PitchClass(v)).collect()
}

#[test]
fn pitch_classes_dorian_harmonic_minor_pentatonic() {
    let d_dorian = Scale::new(PitchClass(2), Mode::Dorian).pitch_classes();
    assert_eq!(d_dorian, pcs(&[2, 4, 5, 7, 9, 11, 0]));

    let a_hm = Scale::new(PitchClass(9), Mode::HarmonicMinor).pitch_classes();
    assert_eq!(a_hm, pcs(&[9, 11, 0, 2, 4, 5, 8]));

    let c_pent = Scale::new(PitchClass(0), Mode::Pentatonic).pitch_classes();
    assert_eq!(c_pent, pcs(&[0, 2, 4, 7, 9]));
}

#[test]
fn contains_diatonic_and_chromatic() {
    let c_major = Scale::new(PitchClass(0), Mode::Major);
    for &pc in &[0u8, 2, 4, 5, 7, 9, 11] {
        assert!(c_major.contains(PitchClass(pc)), "C major should contain {pc}");
    }
    for &pc in &[1u8, 3, 6, 8, 10] {
        assert!(!c_major.contains(PitchClass(pc)), "C major should not contain {pc}");
    }
}

#[test]
fn degree_of_returns_one_based() {
    let c_major = Scale::new(PitchClass(0), Mode::Major);
    assert_eq!(c_major.degree_of(PitchClass(0)), Some(1));
    assert_eq!(c_major.degree_of(PitchClass(2)), Some(2));
    assert_eq!(c_major.degree_of(PitchClass(4)), Some(3));
    assert_eq!(c_major.degree_of(PitchClass(11)), Some(7));
    assert_eq!(c_major.degree_of(PitchClass(1)), None);
}

#[test]
fn mode_parse_roundtrip_all_variants() {
    let cases: &[(&str, Mode)] = &[
        ("major", Mode::Major),
        ("ionian", Mode::Major),
        ("natural minor", Mode::NaturalMinor),
        ("aeolian", Mode::NaturalMinor),
        ("minor", Mode::NaturalMinor),
        ("harmonic minor", Mode::HarmonicMinor),
        ("melodic minor", Mode::MelodicMinor),
        ("dorian", Mode::Dorian),
        ("phrygian", Mode::Phrygian),
        ("lydian", Mode::Lydian),
        ("mixolydian", Mode::Mixolydian),
        ("locrian", Mode::Locrian),
        ("whole tone", Mode::WholeTone),
        ("diminished", Mode::Diminished),
        ("pentatonic", Mode::Pentatonic),
        ("blues", Mode::BluesPentatonic),
    ];
    for (s, expected) in cases {
        assert_eq!(Mode::parse(s), Some(*expected), "parse({s})");
        let upper = s.to_uppercase();
        assert_eq!(Mode::parse(&format!("  {upper}  ")), Some(*expected));
    }
    assert_eq!(Mode::parse("nonsense"), None);
}

#[test]
fn modes_are_lowered_beyond_ascii_too() {
    // The Kelvin sign lowers to a plain k, which no mode's name holds.
    assert_eq!(Mode::parse("MAJOR\u{00A0}"), Some(Mode::Major));
    assert_eq!(Mode::parse("MAJ\u{00D6}R"), None);
    assert_eq!(Mode::from_lowercase("dorian"), Some(Mode::Dorian));
    assert_eq!(Mode::from_lowercase("Dorian"), None);
}

#[test]
fn scales_are_read_from_root_and_mode() {
    assert_eq!(Scale::parse("F#", "Dorian"), Some(Scale::new(PitchClass(6), Mode::Dorian)));
    assert_eq!(Scale::parse("X", "major"), None);
    assert_eq!(Scale::parse("C", "nothing"), None);
    assert_eq!(Mode::BluesPentatonic.intervals(), vec![0, 3, 5, 6, 7, 10]);
    assert_eq!(Mode::WholeTone.identifier(), "WholeTone");
}

#[test]
fn time_signatures_are_read_and_measured() {
    assert_eq!(TimeSignature::parse("6/8"), Some(TimeSignature::six_eight()));
    assert_eq!(TimeSignature::parse(" 3 / 4 "), Some(TimeSignature::three_four()));
    assert_eq!(TimeSignature::parse("4"), None);
    assert_eq!(TimeSignature::parse("4/4/4"), None);
    assert_eq!(TimeSignature::parse("300/4"), None);
    assert_eq!(TimeSignature::four_four().ticks_per_bar(), 1920);
    assert_eq!(TimeSignature::six_eight().ticks_per_bar(), 1440);
    assert_eq!(TimeSignature { numerator: 2, denominator: 2 }.ticks_per_bar(), 1920);
    assert_eq!(TimeSignature { numerator: 5, denominator: 16 }.ticks_per_bar(), 2400);
}

#[test]
fn beats_become_ticks_and_ticks_become_beats() {
    for beats in [0.0f64, 0.25, 0.5, 1.0, 1.5, 0.001, 0.0010416666, 3.999, 1e6, -1.0, 1e300] {
        let expected = (beats * 480.0).round() as u32;
        assert_eq!(Duration::from_beats(beats.to_bits()).0, expected, "{beats} beats");
    }
    assert_eq!(Duration::from_beats(f64::NAN.to_bits()).0, 0);
    assert_eq!(Duration::from_beats(f64::INFINITY.to_bits()).0, u32::MAX);
    for ticks in [0u32, 1, 7, 160, 320, 480, 1919, 1_000_003, u32::MAX] {
        let expected = ticks as f64 / 480.0;
        assert_eq!(f64::from_bits(Duration(ticks).beats()), expected, "{ticks} ticks");
    }
    let n = NoteEvent::from_beats(60, 1.5f64.to_bits(), 0.25f64.to_bits(), 90);
    assert_eq!((n.start, n.duration, n.velocity, n.voice), (720, 120, 90, 1));
}

#[test]
fn retrograde_twice_gives_the_phrase_back() {
    let phrase = sample_phrase();
    let back = phrase.retrograde().retrograde();
    assert_eq!(back.events.len(), phrase.events.len());
    for (a, b) in phrase.events.iter().zip(back.events.iter()) {
        assert_eq!((a.pitch, a.start, a.duration), (b.pitch, b.start, b.duration));
    }
}

#[test]
fn retrograde_twice_keeps_the_notes_of_chords() {
    let mut p = sample_phrase();
    p.events = vec![ev(60, 0, 480), ev(64, 0, 960), ev(67, 480, 240)];
    let mut back: Vec<(u32, u8, u32)> =
        p.retrograde().retrograde().events.iter().map(|e| (e.start, e.pitch, e.duration)).collect();
    assert!(back.windows(2).all(|w| w[0].0 <= w[1].0));
    back.sort();
    assert_eq!(back, vec![(0, 60, 480), (0, 64, 960), (480, 67, 240)]);
}

#[test]
fn voice_leading_takes_the_nearest_centre() {
    let prev = Chord::new(PitchClass(0), ChordQuality::Major7);
    for root in 0..12 {
        let c = Chord::new(PitchClass(root), ChordQuality::Dominant7);
        for register in 0..6i8 {
            let centre = |ps: &[Pitch]| {
                ps.iter().map(|p| p.0 as f64).sum::<f64>() / ps.len() as f64
            };
            let from = centre(&prev.pitches(register));
            let led = (centre(&c.voice_lead_from(&prev, register)) - from).abs();
            for o in -1..=2 {
                assert!(led <= (centre(&c.pitches(register + o)) - from).abs());
            }
        }
    }
}
