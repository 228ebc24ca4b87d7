use cadenza::daemon::audio::{frames_in, AudioCmd, AudioEngine, Renderer, TimedCmd};
use cadenza::daemon::instrument::{Instrument, BUILTIN_PLUGIN_ID};
use cadenza::daemon::synth::{next_stretch, PolySynth, MAX_VOICES};

/// Sines over the library's voices.
struct Sine {
    voices: PolySynth,
    phase: [f32; MAX_VOICES],
    inc: [f32; MAX_VOICES],
    rate: f32,
}

impl Sine {
    fn new(rate: u32) -> Self {
        Sine {
            voices: PolySynth::new(rate),
            phase: [0.0; MAX_VOICES],
            inc: [0.0; MAX_VOICES],
            rate: rate as f32,
        }
    }

    fn render_chunk(&mut self, out: &mut [f32], channels: usize, start: usize, end: usize) {
        let attack = 1.0 / (0.005 * self.rate);
        let release = 1.0 / (0.150 * self.rate);
        for i in 0..MAX_VOICES {
            let v = self.voices.voice(i);
            if !v.active {
                continue;
            }
            let mut env = f32::from_bits(v.level);
            let mut active = true;
            for f in start..end {
                if v.gate {
                    env = (env + attack).min(1.0);
                } else {
                    env -= release;
                    if env <= 0.0 {
                        env = 0.0;
                        active = false;
                        break;
                    }
                }
                let wave = (self.phase[i] * std::f32::consts::TAU).sin();
                let sample = wave * env * (v.velocity as f32 / 127.0) * 0.15;
                self.phase[i] += self.inc[i];
                if self.phase[i] >= 1.0 {
                    self.phase[i] -= 1.0;
                }
                for c in 0..channels {
                    out[f * channels + c] += sample;
                }
            }
            self.voices.set_level(i, active, env.to_bits());
        }
    }

    fn render(&mut self, out: &mut [f32], channels: usize, events: &[(u32, AudioCmd)]) {
        for s in out.iter_mut() {
            *s = 0.0;
        }
        let frames = frames_in(out.len(), channels);
        let mut cursor = 0usize;
        let mut next = 0usize;
        while cursor < frames {
            let stretch = next_stretch(frames, events, cursor, next);
            for i in stretch.first..stretch.until {
                match events[i].1 {
                    AudioCmd::NoteOn { pitch, velocity } => self.note_on(pitch, velocity),
                    AudioCmd::NoteOff { pitch } => self.note_off(pitch),
                    AudioCmd::AllNotesOff => self.all_notes_off(),
                    AudioCmd::ParamSet { .. } => {}
                }
            }
            self.render_chunk(out, channels, stretch.start, stretch.end);
            cursor = stretch.end;
            next = stretch.until;
        }
    }
}

impl Instrument for Sine {
    fn note_on(&mut self, pitch: u8, velocity: u8) {
        let i = self.voices.note_on(pitch, velocity);
        self.phase[i] = 0.0;
        self.inc[i] = 440.0 * 2f32.powf((pitch as f32 - 69.0) / 12.0) / self.rate;
    }
    fn note_off(&mut self, pitch: u8) {
        self.voices.note_off(pitch);
    }
    fn all_notes_off(&mut self) {
        self.voices.all_notes_off();
    }
}

/// A renderer with the frame that it has come to.
struct Player {
    engine: AudioEngine<Sine>,
    renderer: Renderer<Sine>,
    frame: u64,
}

fn player(rate: u32, channels: usize) -> Player {
    let (engine, links) = AudioEngine::connect(rate);
    let renderer = Renderer::new(Sine::new(rate), BUILTIN_PLUGIN_ID, links, channels);
    Player { engine, renderer, frame: 0 }
}

impl Player {
    fn push(&mut self, frame: u64, pitch: u8, velocity: u8) {
        assert!(self.engine.send_timed(TimedCmd {
            frame,
            cmd: AudioCmd::NoteOn { pitch, velocity },
        }));
    }

    fn render(&mut self, out: &mut [f32]) {
        self.renderer.prepare(self.frame, out.len());
        let channels = self.renderer.channels;
        self.renderer.instrument.render(out, channels, &self.renderer.scratch);
        self.frame += frames_in(out.len(), channels) as u64;
    }
}

fn first_nonzero_frame(buf: &[f32], channels: usize) -> Option<usize> {
    let frames = buf.len() / channels;
    (0..frames).find(|&f| buf[f * channels].abs() > 1e-6)
}

fn assert_event_lands_at_offset(buf: &[f32], channels: usize, offset: usize) {
    for f in 0..offset {
        assert_eq!(buf[f * channels], 0.0, "frame {f} should be silent");
    }
    assert_eq!(first_nonzero_frame(buf, channels), Some(offset + 1));
}

#[test]
fn render_dispatches_event_at_exact_frame_offset() {
    let mut h = player(48_000, 2);
    h.push(200, 69, 127);
    let mut buf = vec![0.0f32; 4096 * 2];
    h.render(&mut buf);
    assert_event_lands_at_offset(&buf, 2, 200);
    assert_eq!(h.frame, 4096);
    assert!(buf[(200 + 400) * 2].abs() > 1e-3);
}

#[test]
fn render_holds_future_events_across_buffers() {
    let mut h = player(48_000, 2);
    h.push(5000, 69, 127);
    let mut buf1 = vec![0.0f32; 2 * 1024];
    h.render(&mut buf1);
    assert!(buf1.iter().all(|&x| x == 0.0), "no signal in [0, 1024)");
    assert_eq!(h.frame, 1024);

    h.frame = 4096;
    let mut buf2 = vec![0.0f32; 2 * 1024];
    h.render(&mut buf2);
    assert_event_lands_at_offset(&buf2, 2, 904);
}

#[test]
fn render_processes_multiple_events_in_order() {
    let mut h = player(48_000, 2);
    h.push(100, 69, 100);
    h.push(500, 76, 100);
    let mut buf = vec![0.0f32; 2 * 4096];
    h.render(&mut buf);
    assert_eq!(first_nonzero_frame(&buf, 2), Some(101));
}

#[test]
fn render_advances_frame_counter() {
    let mut h = player(48_000, 2);
    let mut buf = vec![0.0f32; 2 * 512];
    h.render(&mut buf);
    assert_eq!(h.frame, 512);
    h.render(&mut buf);
    assert_eq!(h.frame, 1024);
}

#[test]
fn note_off_drains_envelope_to_zero() {
    let mut s = Sine::new(48_000);
    s.note_on(69, 127);
    let mut buf = vec![0.0f32; 2 * 1024];
    s.render(&mut buf, 2, &[]);
    s.note_off(69);
    let mut buf = vec![0.0f32; 2 * 16_384];
    s.render(&mut buf, 2, &[]);
    assert_eq!(s.voices.active_count(), 0, "voice should have released and deactivated");
}

#[test]
fn render_output_contains_no_nans() {
    let mut s = Sine::new(44_100);
    s.note_on(60, 100);
    s.note_on(64, 100);
    s.note_on(67, 100);
    let mut buf = vec![0.0f32; 2 * 2048];
    s.render(&mut buf, 2, &[]);
    assert!(buf.iter().all(|x| x.is_finite()));
    assert!(buf.iter().any(|x| x.abs() > 1e-6));
}

#[test]
fn render_into_silent_buffer_with_no_voices_is_silent() {
    let mut s = Sine::new(44_100);
    let mut buf = vec![1.0f32; 2 * 64];
    s.render(&mut buf, 2, &[]);
    assert!(buf.iter().all(|x| *x == 0.0));
}

#[test]
fn note_on_event_at_offset_keeps_pre_offset_silent() {
    let mut s = Sine::new(48_000);
    let mut buf = vec![0.0f32; 2048 * 2];
    let events = [(500u32, AudioCmd::NoteOn { pitch: 69, velocity: 127 })];
    s.render(&mut buf, 2, &events);
    for f in 0..500 {
        assert_eq!(buf[f * 2], 0.0, "frame {f} should be silent");
    }
    assert_eq!(first_nonzero_frame(&buf, 2), Some(501));
}

#[test]
fn multiple_events_dispatched_in_order() {
    let mut s = Sine::new(48_000);
    let mut buf = vec![0.0f32; 2048];
    let events = [
        (100u32, AudioCmd::NoteOn { pitch: 60, velocity: 100 }),
        (800u32, AudioCmd::NoteOn { pitch: 64, velocity: 100 }),
    ];
    s.render(&mut buf, 1, &events);
    assert_eq!(first_nonzero_frame(&buf, 1), Some(101));
    assert_eq!(s.voices.active_count(), 2);
}
