use cadenza::daemon::audio::{
    frames_in, AudioCmd, AudioEngine, PendingQueue, Renderer, TimedCmd, PENDING_CAP,
    RINGBUF_CAPACITY,
};
use cadenza::daemon::host::{
    matches_plugin_ext, HostError, LoadedPlugin, PluginFormat, PluginHost,
};
use cadenza::daemon::instrument::{Instrument, BUILTIN_PLUGIN_ID};
use cadenza::daemon::ipc::DaemonMessage;
use cadenza::daemon::paths::{name_of, stem, Platform};
use cadenza::daemon::scheduler::{
    build_timeline, ticks_to_duration, ticks_to_frames, timeline_fits,
};
use cadenza::daemon::server::{
    activation_reply, bad_message, builtin_reply, load_reply, prompt_reply, refusal, refusal_ends,
    scan_reply, unload_reply,
    Action, Connection, Refusal, TaskOutcome,
};
use cadenza::daemon::synth::{render_plan, PolySynth, RenderStep, MAX_VOICES};
use cadenza::theory::phrase::Phrase;
use cadenza::theory::rhythm::{NoteEvent, TimeSignature};
use std::time::Duration;

#[test]
fn matches_plugin_ext_recognises_vst3_and_clap() {
    assert!(matches_plugin_ext("/p/foo.vst3", Platform::Linux));
    assert!(matches_plugin_ext("/p/foo.VST3", Platform::Linux));
    assert!(matches_plugin_ext("/p/foo.clap", Platform::Linux));
    assert!(matches_plugin_ext("/p/foo.CLAP", Platform::Linux));
    assert!(!matches_plugin_ext("/p/foo.dll", Platform::Linux));
    assert!(!matches_plugin_ext("/p/foo", Platform::Linux));
}

#[test]
fn hidden_names_have_no_extension() {
    assert!(!matches_plugin_ext("/p/.vst3", Platform::Linux));
    assert!(matches_plugin_ext("/p/foo.vst3/", Platform::Linux));
    assert!(!matches_plugin_ext("/p/foo.vst3/..", Platform::Linux));
    assert_eq!(name_of("/a/b.c/./", Platform::Linux), Some(vec!['b', '.', 'c']));
    assert_eq!(name_of("/", Platform::Linux), None);
    assert_eq!(stem(&vec!['b', '.', 'c']), vec!['b']);
    assert_eq!(stem(&vec!['.', 'c']), vec!['.', 'c']);
}

fn windows_name(path: &str) -> Option<String> {
    name_of(path, Platform::Windows).map(|n| n.into_iter().collect())
}

#[test]
fn windows_paths_have_prefixes_and_two_slashes() {
    assert_eq!(windows_name("C:\\p\\gain.clap").as_deref(), Some("gain.clap"));
    assert_eq!(windows_name("C:/p/gain.clap\\").as_deref(), Some("gain.clap"));
    assert_eq!(windows_name("C:gain.clap").as_deref(), Some("gain.clap"));
    assert_eq!(windows_name("C:\\"), None);
    assert_eq!(windows_name("\\\\server\\share.vst3"), None);
    assert_eq!(windows_name("\\\\server\\share\\x.vst3").as_deref(), Some("x.vst3"));
    assert_eq!(windows_name("\\\\server").as_deref(), Some("server"));
    assert_eq!(windows_name("\\\\.\\COM4"), None);
    assert_eq!(windows_name("\\\\?\\C:\\p\\a/b.vst3").as_deref(), Some("a/b.vst3"));
    assert_eq!(windows_name("\\\\?\\UNC\\server\\share\\x.vst3").as_deref(), Some("x.vst3"));
    assert_eq!(windows_name("\\\\?\\UNC\\server\\share"), None);
    assert_eq!(windows_name("\\\\?\\pictures\\cat.vst3").as_deref(), Some("cat.vst3"));
    assert_eq!(windows_name("\\\\?\\C:\\p\\."), None);
    assert_eq!(windows_name("p\\x.clap\\.").as_deref(), Some("x.clap"));
    assert_eq!(windows_name("p\\.."), None);
    assert!(!matches_plugin_ext("C:\\p\\.vst3", Platform::Windows));
    assert!(!matches_plugin_ext("C:.vst3", Platform::Windows));
    assert!(matches_plugin_ext("C:\\p\\x.VST3", Platform::Windows));
    assert!(matches_plugin_ext("C:\\p\\.vst3", Platform::Linux));
}

#[test]
fn scan_returns_only_plugin_files_sorted() {
    let host: PluginHost<u8> = PluginHost::new();
    let found = host.scan(vec![
        "/d/gamma.vst3".to_string(),
        "/d/ignored.txt".to_string(),
        "/d/beta.clap".to_string(),
        "/d/alpha.vst3".to_string(),
    ], Platform::Linux);
    assert_eq!(found, vec!["/d/alpha.vst3", "/d/beta.clap", "/d/gamma.vst3"]);
}

#[test]
fn scan_returns_empty_for_dir_without_plugins() {
    let host: PluginHost<u8> = PluginHost::new();
    assert!(host.scan(vec!["/d/readme.txt".to_string()], Platform::Linux).is_empty());
}

#[test]
fn scan_errors_on_missing_dir() {
    let e = HostError::scan_failed("/definitely/does/not/exist/cadenza-test", "no such directory");
    assert!(matches!(e, HostError::ScanFailed(_)));
    assert_eq!(
        e.message(),
        "plugin scan failed: /definitely/does/not/exist/cadenza-test: no such directory",
    );
}

#[test]
fn insert_for_test_assigns_unique_ascending_ids() {
    let mut host = PluginHost::new();
    let a = host.insert("foo.vst3", 'a');
    let b = host.insert("bar.clap", 'b');
    assert_eq!(a, 1);
    assert_eq!(b, 2);
}

#[test]
fn load_rejects_unknown_extension() {
    let mut host = PluginHost::new();
    let result = host.load("/d/what.dll", true, Platform::Linux, Ok(('x', "what".to_string(), vec![])));
    assert!(matches!(result, Err(HostError::UnsupportedFormat(_))));
}

#[test]
fn load_rejects_missing_file() {
    let mut host = PluginHost::new();
    let result =
        host.load("/no/such/plugin.clap", false, Platform::Linux, Ok(('x', "plugin".to_string(), vec![])));
    assert!(matches!(result, Err(HostError::NotFound(_))));
}

#[test]
fn load_keeps_what_the_backend_built() {
    let mut host = PluginHost::new();
    let loaded = host
        .load("/p/gain.CLAP", true, Platform::Linux, Ok(('x', "Gain".to_string(), vec![])))
        .expect("load");
    assert_eq!((loaded.id, loaded.name.as_str()), (1, "Gain"));
    assert_eq!(host.take_instrument(1), Some('x'));
    let failed = host.load("/p/gain.clap", true, Platform::Linux, Err(HostError::LoadFailed("no".to_string())));
    assert_eq!(failed.err().map(|e| e.message()), Some("plugin load failed: no".to_string()));
    assert!(matches!(
        PluginHost::<char>::backend_for("/p/x.vst3", true, Platform::Linux),
        Ok(PluginFormat::Vst3)
    ));
}

#[test]
fn take_instrument_returns_some_then_none() {
    let mut host = PluginHost::new();
    let id = host.insert("x.vst3", 'x');

    let first = host.take_instrument(id);
    assert!(first.is_some());
    let second = host.take_instrument(id);
    assert!(second.is_none());

    host.return_instrument(id, first.unwrap());
    assert!(host.take_instrument(id).is_some());
}

#[test]
fn unload_removes_entry() {
    let mut host = PluginHost::new();
    let id = host.insert("x.vst3", 'x');

    host.unload(id).expect("unload");
    assert!(host.unload(id).is_err());
    assert_eq!(host.unload(7).err().map(|e| e.message()), Some("plugin not found: id 7".into()));
}

#[test]
fn returned_instruments_of_forgotten_plugins_are_dropped() {
    let mut host = PluginHost::new();
    let id = host.insert("x.vst3", 'x');
    let x = host.take_instrument(id).unwrap();
    host.return_dropped(vec![(BUILTIN_PLUGIN_ID, 'b'), (99, 'q'), (id, x)]);
    assert_eq!(host.take_instrument(id), Some('x'));
    assert_eq!(host.take_instrument(99), None);
}

#[test]
fn ticks_to_duration_120bpm_quarter_note_is_500ms() {
    let d = Duration::from_nanos(ticks_to_duration(480, 120));
    assert!((d.as_secs_f64() - 0.5).abs() < 1e-9);
}

#[test]
fn ticks_to_duration_60bpm_quarter_note_is_1s() {
    let d = Duration::from_nanos(ticks_to_duration(480, 60));
    assert!((d.as_secs_f64() - 1.0).abs() < 1e-9);
}

#[test]
fn ticks_to_duration_200bpm_one_bar_4_4() {
    let d = Duration::from_nanos(ticks_to_duration(1920, 200));
    assert!((d.as_secs_f64() - 1.2).abs() < 1e-9);
}

#[test]
fn ticks_to_duration_zero_is_zero() {
    assert_eq!(Duration::from_nanos(ticks_to_duration(0, 120)), Duration::ZERO);
}

#[test]
fn ticks_to_duration_clamps_zero_tempo() {
    let d = Duration::from_nanos(ticks_to_duration(480, 0));
    assert!(d.as_secs_f64().is_finite());
}

#[test]
fn ticks_to_frames_120bpm_quarter_note_at_48khz() {
    assert_eq!(ticks_to_frames(480, 120, 48_000), 24_000);
}

#[test]
fn ticks_to_frames_zero_is_zero() {
    assert_eq!(ticks_to_frames(0, 120, 48_000), 0);
}

#[test]
fn times_are_rounded_as_doubles_are() {
    for ticks in [1u32, 7, 319, 480, 1919, 100_003, u32::MAX] {
        for tempo in [0u16, 1, 97, 120, 133, 65_535] {
            let t = tempo.max(1) as f64;
            let seconds = ticks as f64 * (60.0 / t / 480.0);
            assert_eq!(
                Duration::from_nanos(ticks_to_duration(ticks, tempo)),
                Duration::from_secs_f64(seconds),
                "{ticks} ticks at {tempo}",
            );
            for rate in [44_100u32, 48_000, 96_000] {
                assert_eq!(
                    ticks_to_frames(ticks, tempo, rate),
                    (seconds * rate as f64).round() as u64,
                    "{ticks} ticks at {tempo} and {rate}",
                );
            }
        }
    }
}

fn note(pitch: u8, start: u32, duration: u32) -> NoteEvent {
    NoteEvent { pitch, start, duration, velocity: 80, channel: 0, voice: 1, slur_group: None }
}

#[test]
fn timeline_is_ordered_and_knows_its_end() {
    let (cmds, end) =
        build_timeline(&vec![note(64, 480, 480), note(60, 0, 480)], 120, 48_000, 1_000);
    let frames: Vec<u64> = cmds.iter().map(|c| c.frame).collect();
    assert_eq!(frames, vec![1_000, 25_000, 25_000, 49_000]);
    assert_eq!(cmds[0].cmd, AudioCmd::NoteOn { pitch: 60, velocity: 80 });
    assert_eq!(cmds[1].cmd, AudioCmd::NoteOn { pitch: 64, velocity: 80 });
    assert_eq!(cmds[2].cmd, AudioCmd::NoteOff { pitch: 60 });
    assert_eq!(cmds[3].cmd, AudioCmd::NoteOff { pitch: 64 });
    assert_eq!(end, 49_000);
}

#[test]
fn timeline_fits_up_to_the_last_frame() {
    let events = vec![note(60, 0, 480)];
    let last_start = u64::MAX - 24_000;
    assert!(timeline_fits(&events, 120, 48_000, last_start));
    assert_eq!(build_timeline(&events, 120, 48_000, last_start).1, u64::MAX);
    assert!(!timeline_fits(&events, 120, 48_000, last_start + 1));
    assert!(timeline_fits(&vec![], 120, 48_000, u64::MAX));
    assert!(timeline_fits(&vec![note(60, u32::MAX, u32::MAX)], 0, u32::MAX, u64::MAX / 2));
}

#[test]
fn note_on_allocates_a_voice() {
    let mut s = PolySynth::new(48_000);
    assert_eq!(s.active_count(), 0);
    s.note_on(60, 100);
    assert_eq!(s.active_count(), 1);
}

#[test]
fn voice_steal_when_exceeding_max_voices() {
    let mut s = PolySynth::new(48_000);
    for i in 0..MAX_VOICES as u8 {
        s.note_on(60 + i, 100);
    }
    assert_eq!(s.active_count(), MAX_VOICES);
    s.note_on(90, 100);
    assert_eq!(s.active_count(), MAX_VOICES);
    assert!((0..s.voice_count()).map(|i| s.voice(i)).any(|v| v.active && v.pitch == 90));
}

#[test]
fn quietest_voice_is_stolen_and_released_voices_keep_sounding() {
    let mut s = PolySynth::new(48_000);
    for i in 0..MAX_VOICES as u8 {
        let v = s.note_on(40 + i, 100);
        s.set_level(v, true, 0.5f32.to_bits());
    }
    s.set_level(5, true, 0.25f32.to_bits());
    assert_eq!(s.note_on(90, 100), 5);
    s.note_off(90);
    assert!(s.voice(5).active && !s.voice(5).gate);
    s.all_notes_off();
    assert!((0..s.voice_count()).all(|i| !s.voice(i).gate));
    assert_eq!(s.active_count(), MAX_VOICES);
}

#[test]
fn buffer_is_cut_at_its_events() {
    let on = |pitch: u8| AudioCmd::NoteOn { pitch, velocity: 100 };
    let plan = render_plan(2048, &[(100, on(60)), (800, on(64))]);
    assert_eq!(
        plan,
        vec![
            RenderStep::Render { start: 0, end: 100 },
            RenderStep::Apply(on(60)),
            RenderStep::Render { start: 100, end: 800 },
            RenderStep::Apply(on(64)),
            RenderStep::Render { start: 800, end: 2048 },
        ],
    );
    assert_eq!(
        render_plan(10, &[(0, on(60)), (0, on(61)), (10, on(62))]),
        vec![
            RenderStep::Apply(on(60)),
            RenderStep::Apply(on(61)),
            RenderStep::Render { start: 0, end: 10 },
        ],
    );
    assert_eq!(render_plan(0, &[(0, on(60))]), vec![]);
}

fn timed(frame: u64, pitch: u8) -> TimedCmd {
    TimedCmd { frame, cmd: AudioCmd::NoteOn { pitch, velocity: 100 } }
}

/// Prepares a buffer and gives its commands.
fn prepared(r: &mut Renderer<Named>, now: u64, samples: usize) -> Vec<(u32, AudioCmd)> {
    r.prepare(now, samples);
    r.scratch.clone()
}

/// An instrument that is told apart by its name.
#[derive(Debug, Clone, Copy, PartialEq)]
struct Named(&'static str);

impl Instrument for Named {
    fn note_on(&mut self, _pitch: u8, _velocity: u8) {}
    fn note_off(&mut self, _pitch: u8) {}
    fn all_notes_off(&mut self) {}
}

#[test]
fn render_holds_future_commands_across_buffers() {
    let (mut engine, links) = AudioEngine::connect(48_000);
    let mut renderer = Renderer::new(Named("builtin"), BUILTIN_PLUGIN_ID, links, 2);
    assert!(engine.send_timed(timed(5000, 69)));
    assert_eq!(prepared(&mut renderer, 0, 2 * 1024), vec![]);
    assert_eq!(
        prepared(&mut renderer, 4096, 2 * 1024),
        vec![(904, AudioCmd::NoteOn { pitch: 69, velocity: 100 })],
    );
    assert_eq!(engine.take_dropped_instruments(), vec![]);
}

#[test]
fn out_of_order_pushes_get_sorted_into_pending() {
    let (mut engine, links) = AudioEngine::connect(48_000);
    let mut renderer = Renderer::new(Named("builtin"), BUILTIN_PLUGIN_ID, links, 2);
    assert!(engine.send_timed(timed(800, 76)));
    assert!(engine.send_timed(timed(200, 69)));
    let events = prepared(&mut renderer, 0, 2 * 4096);
    assert_eq!(
        events,
        vec![
            (200, AudioCmd::NoteOn { pitch: 69, velocity: 100 }),
            (800, AudioCmd::NoteOn { pitch: 76, velocity: 100 }),
        ],
    );
    assert!(engine.take_dropped_instruments().is_empty());
}

#[test]
fn late_commands_sound_at_once_and_all_are_sent() {
    let (mut engine, links) = AudioEngine::connect(48_000);
    let mut renderer = Renderer::new(Named("builtin"), BUILTIN_PLUGIN_ID, links, 1);
    assert!(engine.send(77, AudioCmd::AllNotesOff));
    assert!(engine.send_all(&vec![timed(100, 1), timed(90, 2)]).is_empty());
    assert_eq!(
        prepared(&mut renderer, 100, 16),
        vec![
            (0, AudioCmd::AllNotesOff),
            (0, AudioCmd::NoteOn { pitch: 2, velocity: 100 }),
            (0, AudioCmd::NoteOn { pitch: 1, velocity: 100 }),
        ],
    );
    assert!(engine.take_dropped_instruments().is_empty());
}

#[test]
fn full_queue_drops_the_rest() {
    let (mut engine, _links) = AudioEngine::<Named>::connect(48_000);
    let many: Vec<TimedCmd> = (0..RINGBUF_CAPACITY as u64 + 3).map(|i| timed(i, 1)).collect();
    let dropped: Vec<u64> = engine.send_all(&many).iter().map(|c| c.frame).collect();
    assert_eq!(dropped, vec![16_384, 16_385, 16_386]);
}

#[test]
fn instrument_swap_evicts_old_and_routes_events_through_new() {
    let (mut engine, links) = AudioEngine::connect(48_000);
    let mut renderer = Renderer::new(Named("builtin"), BUILTIN_PLUGIN_ID, links, 2);
    assert!(engine.swap_instrument(42, Named("counting")));
    assert!(engine.send_timed(timed(100, 60)));

    let events = prepared(&mut renderer, 0, 2 * 1024);
    assert_eq!(events, vec![(100, AudioCmd::NoteOn { pitch: 60, velocity: 100 })]);
    assert_eq!((renderer.current_id, renderer.instrument), (42, Named("counting")));

    let dropped = engine.take_dropped_instruments();
    assert_eq!(dropped, vec![(BUILTIN_PLUGIN_ID, Named("builtin"))]);

    assert_eq!(prepared(&mut renderer, 1024, 2 * 1024), vec![]);
}

#[test]
fn evicted_synth_comes_back_with_every_voice_let_go() {
    let (mut engine, links) = AudioEngine::connect(48_000);
    let mut builtin = PolySynth::new(48_000);
    Instrument::note_on(&mut builtin, 60, 100);
    Instrument::note_on(&mut builtin, 64, 100);
    Instrument::note_off(&mut builtin, 60);
    assert_eq!((0..MAX_VOICES).filter(|i| builtin.voice(*i).gate).count(), 1);
    let mut renderer = Renderer::new(builtin, BUILTIN_PLUGIN_ID, links, 2);
    assert!(engine.swap_instrument(3, PolySynth::new(44_100)));
    renderer.prepare(0, 2 * 256);
    assert_eq!(renderer.instrument.active_count(), 0);

    let dropped = engine.take_dropped_instruments();
    assert_eq!(dropped.len(), 1);
    let (id, synth) = &dropped[0];
    assert_eq!(*id, BUILTIN_PLUGIN_ID);
    assert_eq!(synth.active_count(), 2);
    assert!((0..MAX_VOICES).all(|i| !synth.voice(i).gate));
}

#[test]
fn consecutive_swaps_each_evict_predecessor() {
    let (mut engine, links) = AudioEngine::connect(48_000);
    let mut renderer = Renderer::new(Named("builtin"), BUILTIN_PLUGIN_ID, links, 2);
    assert!(engine.swap_instrument(7, Named("a")));
    assert!(engine.swap_instrument(9, Named("b")));

    renderer.prepare(0, 2 * 256);
    assert_eq!(engine.take_dropped_instruments(), vec![(BUILTIN_PLUGIN_ID, Named("builtin"))]);

    renderer.prepare(256, 2 * 256);
    assert_eq!(engine.take_dropped_instruments(), vec![(7, Named("a"))]);
}

#[test]
fn evicted_instrument_is_routed_back_to_host_for_reuse() {
    let mut host = PluginHost::new();
    let loaded = host
        .load("/d/fake.vst3", true, Platform::Linux, Ok((Named("plugin"), "fake.vst3".to_string(), vec![])))
        .expect("host load");
    let id = loaded.id;

    let (mut engine, links) = AudioEngine::connect(48_000);
    let mut renderer = Renderer::new(Named("builtin"), BUILTIN_PLUGIN_ID, links, 2);
    let inst = host.take_instrument(id).expect("first take");
    assert!(engine.swap_instrument(id, inst));

    renderer.prepare(0, 2 * 256);
    let dropped = engine.take_dropped_instruments();
    assert_eq!(dropped.len(), 1);
    assert_eq!(dropped[0].0, BUILTIN_PLUGIN_ID);

    assert!(engine.swap_instrument(BUILTIN_PLUGIN_ID, Named("builtin")));
    renderer.prepare(256, 2 * 256);

    let dropped = engine.take_dropped_instruments();
    assert_eq!(dropped[0].0, id);
    host.return_dropped(dropped);

    let reused = host.take_instrument(id);
    assert!(
        reused.is_some(),
        "expected the cached instrument to be available for reuse after eviction"
    );
}

#[test]
fn take_dropped_instruments_returns_empty_when_idle() {
    let (mut engine, links) = AudioEngine::connect(48_000);
    let mut renderer = Renderer::new(Named("builtin"), BUILTIN_PLUGIN_ID, links, 2);
    assert!(engine.take_dropped_instruments().is_empty());

    assert!(engine.swap_instrument(11, Named("counting")));
    renderer.prepare(0, 2 * 64);

    let dropped = engine.take_dropped_instruments();
    assert_eq!(dropped.len(), 1);
    assert_eq!(dropped[0].0, BUILTIN_PLUGIN_ID);
    assert!(engine.take_dropped_instruments().is_empty());
}

#[test]
fn swaps_wait_while_nothing_is_taken_back() {
    let (mut engine, links) = AudioEngine::connect(48_000);
    let mut renderer = Renderer::new(Named("builtin"), BUILTIN_PLUGIN_ID, links, 2);
    for i in 1..=4u32 {
        assert!(engine.swap_instrument(i, Named("plugin")));
    }
    assert!(!engine.swap_instrument(5, Named("late")));
    for _ in 0..6 {
        renderer.prepare(0, 2);
    }
    assert_eq!(renderer.current_id, 4);
    assert!(engine.swap_instrument(5, Named("late")));
    renderer.prepare(0, 2);
    assert_eq!(renderer.current_id, 4);
    let ids: Vec<u32> = engine.take_dropped_instruments().iter().map(|d| d.0).collect();
    assert_eq!(ids, vec![0, 1, 2, 3]);
    renderer.prepare(0, 2);
    assert_eq!((renderer.current_id, renderer.instrument), (5, Named("late")));
}

#[test]
fn pending_commands_are_bounded_and_ordered() {
    let mut q = PendingQueue::new();
    for i in 0..PENDING_CAP as u64 {
        assert!(!q.is_full());
        q.insert(timed(1000 - i, 1));
    }
    assert!(q.is_full());
    let mut due = Vec::new();
    q.take_due(600, 10, &mut due);
    assert_eq!(due.len() as u64, 609 - (1000 - (PENDING_CAP as u64 - 1)) + 1);
    assert!(due.windows(2).all(|w| w[0].0 <= w[1].0));
    assert_eq!(frames_in(1025, 2), 512);
    assert_eq!(frames_in(10, 0), 10);
}

#[test]
fn ping_returns_pong() {
    let mut c = Connection::new(false);
    assert!(matches!(c.receive(DaemonMessage::Ping), Action::Pong));
}

#[test]
fn malformed_message_returns_error() {
    match bad_message("expected value") {
        DaemonMessage::Error(msg) => assert!(msg.contains("bad message")),
        other => panic!("expected Error, got {other:?}"),
    }
}

fn empty_phrase() -> Phrase {
    Phrase::new(1, "t", TimeSignature::four_four(), 120)
}

#[test]
fn play_phrase_without_engine_errors() {
    let mut c = Connection::new(false);
    let action =
        c.receive(DaemonMessage::PlayPhrase { phrase: empty_phrase(), plugin_id: None });
    match action {
        Action::Refuse(why) => {
            assert!(matches!(refusal(why), DaemonMessage::Error(_)));
            assert_eq!(why, Refusal::EngineUnavailable);
        }
        _ => panic!("expected a refusal"),
    }
    assert!(!c.playing);
}

#[test]
fn a_new_phrase_stops_the_one_before() {
    let mut c = Connection::new(true);
    let play = |c: &mut Connection| {
        c.receive(DaemonMessage::PlayPhrase { phrase: empty_phrase(), plugin_id: None })
    };
    assert!(matches!(play(&mut c), Action::Play { cancel: false, .. }));
    assert!(matches!(play(&mut c), Action::Play { cancel: true, .. }));
    assert!(matches!(
        c.receive(DaemonMessage::Stop),
        Action::Stop { cancel: true, silence: true }
    ));
    assert!(matches!(play(&mut c), Action::Play { cancel: false, .. }));
    assert_eq!(c.close(), (true, true));
    assert_eq!(c.close(), (false, true));
}

#[test]
fn requests_lead_to_actions() {
    let mut c = Connection::new(true);
    assert!(matches!(
        c.receive(DaemonMessage::ScanPlugins { dir: "/p".into() }),
        Action::Scan { dir } if dir == "/p"
    ));
    assert!(matches!(
        c.receive(DaemonMessage::LoadPlugin { path: "/x.vst3".into() }),
        Action::Load { path } if path == "/x.vst3"
    ));
    assert!(matches!(
        c.receive(DaemonMessage::UnloadPlugin { id: 7 }),
        Action::Unload { id: 7 }
    ));
    assert!(matches!(
        c.receive(DaemonMessage::SetInstrument { plugin_id: 4 }),
        Action::Activate { id: 4 }
    ));
    assert!(matches!(c.receive(DaemonMessage::UseBuiltinSynth), Action::ActivateBuiltin));
    assert!(matches!(
        c.receive(DaemonMessage::SetParam { plugin_id: 1, param_id: 2, value: 3 }),
        Action::SetParam { param_id: 2, value: 3 }
    ));
    assert!(matches!(c.receive(DaemonMessage::SetTempo(140)), Action::Nothing));
    assert!(matches!(c.receive(DaemonMessage::Pong), Action::Nothing));
}

fn error_text(m: DaemonMessage) -> String {
    match m {
        DaemonMessage::Error(s) => s,
        other => panic!("expected Error, got {other:?}"),
    }
}

#[test]
fn outcomes_are_answered() {
    assert!(matches!(
        scan_reply(TaskOutcome::Done(Ok(vec!["/p/a.vst3".to_string()]))),
        DaemonMessage::ScannedPlugins { paths } if paths == vec!["/p/a.vst3"]
    ));
    assert_eq!(
        error_text(scan_reply(TaskOutcome::Done(Err(HostError::ScanFailed("x".into()))))),
        "plugin scan failed: x",
    );
    let loaded = LoadedPlugin { id: 3, name: "Gain".into(), params: vec![] };
    assert!(matches!(
        load_reply(TaskOutcome::Done(Ok(loaded))),
        DaemonMessage::PluginLoaded { id: 3, name, params } if name == "Gain" && params.is_empty()
    ));
    assert!(matches!(unload_reply(3, Ok(())), DaemonMessage::PluginUnloaded { id: 3 }));
    assert!(matches!(
        activation_reply(3, Some(true)),
        DaemonMessage::PluginActivated { id: 3 }
    ));
    assert_eq!(error_text(activation_reply(3, Some(false))), "instrument swap failed");
    assert_eq!(error_text(activation_reply(3, None)), "plugin 3 not loaded or already active");
    assert!(matches!(builtin_reply(true), DaemonMessage::BuiltinSynthActivated));
    assert_eq!(error_text(builtin_reply(false)), "instrument swap failed");
    assert_eq!(error_text(refusal(Refusal::EngineUnavailable)), "audio engine unavailable");
    assert_eq!(error_text(bad_message("x")), "bad message: x");
}

#[test]
fn prompt_replies_follow_actions() {
    assert!(matches!(prompt_reply(&Action::Pong), Some((DaemonMessage::Pong, true))));
    let play = Action::Play { phrase: empty_phrase(), cancel: false };
    assert!(matches!(prompt_reply(&play), Some((DaemonMessage::PlaybackStarted, true))));
    let stop = Action::Stop { cancel: true, silence: true };
    assert!(matches!(prompt_reply(&stop), Some((DaemonMessage::PlaybackStopped, true))));
    assert!(prompt_reply(&Action::ActivateBuiltin).is_none());
    assert!(prompt_reply(&Action::Nothing).is_none());
    let (answer, ends) = prompt_reply(&Action::Refuse(Refusal::EngineUnavailable)).unwrap();
    assert_eq!(error_text(answer), "audio engine unavailable");
    assert!(!ends);
    assert!(!refusal_ends(Refusal::NotLoaded(3)));
    assert!(refusal_ends(Refusal::SwapFailed));
}
