use cadenza::daemon::audio::AudioCmd;
use cadenza::daemon::host::HostError;
use cadenza::daemon::output::{
    frames_to_render, slot_source, stage_clap_events, ClapEvent, SlotSource,
    EVENT_BUFFER_CAPACITY,
};
use cadenza::daemon::paths::Platform;
use cadenza::daemon::params::{
    clap_param_name, list_params, params_to_query, stage_vst3_events, string128_to_string,
    ParamChanges, Point, ReportedParam, VST3_MAX_PARAM_QUEUES, VST3_MAX_POINTS_PER_QUEUE,
};
use cadenza::daemon::plugin::{
    binary_missing, clap_plugin_name, clap_report, next_main_id, resolve_bundle_binary,
    CallResult, ClapStep, ControllerKind, Vst3Load, Vst3Step,
};
use cadenza::daemon::registry::Registry;

fn text(e: HostError) -> String {
    match e {
        HostError::LoadFailed(s) => s,
        other => panic!("expected LoadFailed, got {other:?}"),
    }
}

fn class(code: i32, category: &str, name: &str) -> CallResult {
    CallResult::Class {
        code,
        category: Some(category.to_string()),
        name: Some(name.to_string()),
    }
}

/// Drives a loading through a row of results, and gives the error that ends it.
fn drive(results: Vec<CallResult>) -> (Vst3Load, Option<String>) {
    let mut load = Vst3Load::new();
    for r in results {
        if let Err(e) = load.report("/b/Gain", r) {
            return (load, Some(text(e)));
        }
    }
    (load, None)
}

fn up_to_class() -> Vec<CallResult> {
    vec![CallResult::Done, CallResult::Done, CallResult::Count(2)]
}

fn up_to_component() -> Vec<CallResult> {
    let mut v = up_to_class();
    v.push(class(0, "Component Controller Class", "Ctl"));
    v.push(class(0, "Audio Module Class", "Gain"));
    v
}

fn up_to_buses() -> Vec<CallResult> {
    let mut v = up_to_component();
    v.extend([
        CallResult::Code(0),
        CallResult::Code(0),
        CallResult::Done,
        CallResult::Done,
        CallResult::Done,
    ]);
    v
}

#[test]
fn vst3_loading_ends_ready() {
    let mut v = up_to_buses();
    v.extend((0..6).map(|_| CallResult::Code(0)));
    let (load, error) = drive(v);
    assert_eq!(error, None);
    assert_eq!(load.step, Vst3Step::Ready);
    assert_eq!(load.name, "Gain");
    assert_eq!(load.controller, ControllerKind::Same);
}

#[test]
fn vst3_classes_may_be_unreadable() {
    let mut v = up_to_class();
    v.push(CallResult::Class { code: 0, category: None, name: None });
    v.push(CallResult::Class {
        code: 0,
        category: Some("Audio Module Class".to_string()),
        name: None,
    });
    let (load, error) = drive(v);
    assert_eq!(error, None);
    assert_eq!((load.step, load.name.as_str()), (Vst3Step::Component, "unknown"));
}

#[test]
fn vst3_separate_controller_is_optional() {
    let mut v = up_to_component();
    v.extend([CallResult::Code(0), CallResult::Code(0), CallResult::Done, CallResult::Absent]);
    let mut with = v;
    with.extend([
        CallResult::Code(0),
        CallResult::Code(0),
        CallResult::Code(0),
        CallResult::Done,
    ]);
    let (load, error) = drive(with);
    assert_eq!(error, None);
    assert_eq!(load.step, Vst3Step::Params);
    assert_eq!(load.controller, ControllerKind::Separate);

    let mut without = up_to_component();
    without.extend([
        CallResult::Code(0),
        CallResult::Code(0),
        CallResult::Done,
        CallResult::Absent,
        CallResult::Code(0),
        CallResult::Code(5),
    ]);
    let (load, error) = drive(without);
    assert_eq!(error, None);
    assert_eq!(load.step, Vst3Step::Buses);
    assert_eq!(load.controller, ControllerKind::Nobody);
}

#[test]
fn vst3_failures_are_worded() {
    let cases: Vec<(Vec<CallResult>, CallResult, &str)> = vec![
        (vec![], CallResult::Broken("no such file".into()), "dlopen /b/Gain: no such file"),
        (
            vec![CallResult::Done],
            CallResult::Broken("undefined".into()),
            "GetPluginFactory missing: undefined",
        ),
        (vec![CallResult::Done], CallResult::Absent, "GetPluginFactory returned null"),
        (
            vec![CallResult::Done, CallResult::Done],
            CallResult::Count(0),
            "factory exposes 0 classes",
        ),
        (
            vec![CallResult::Done, CallResult::Done],
            CallResult::Count(-3),
            "factory exposes -3 classes",
        ),
        (
            {
                let mut v = up_to_class();
                v.push(class(0, "Other", "x"));
                v
            },
            class(1, "Audio Module Class", "x"),
            "no Audio Module Class in factory",
        ),
        (
            up_to_component(),
            CallResult::Code(-2),
            "createInstance(IComponent) failed: tresult=-2",
        ),
        (up_to_component(), CallResult::Absent, "createInstance(IComponent) failed: tresult=0"),
        (
            {
                let mut v = up_to_component();
                v.push(CallResult::Code(0));
                v
            },
            CallResult::Code(3),
            "IComponent::initialize failed: tresult=3",
        ),
        (
            {
                let mut v = up_to_component();
                v.extend([CallResult::Code(0), CallResult::Code(0)]);
                v
            },
            CallResult::Absent,
            "component does not expose IAudioProcessor",
        ),
        (
            up_to_buses(),
            CallResult::Code(1),
            "setBusArrangements stereo,stereo failed: tresult=1",
        ),
    ];
    for (mut before, last, expected) in cases {
        before.push(last);
        assert_eq!(drive(before).1.as_deref(), Some(expected));
    }
    for (n, expected) in [
        (1, "setupProcessing failed: tresult=9"),
        (2, "activateBus(input 0) failed: tresult=9"),
        (3, "activateBus(output 0) failed: tresult=9"),
        (4, "setActive(true) failed: tresult=9"),
        (5, "setProcessing(true) failed: tresult=9"),
    ] {
        let mut v = up_to_buses();
        v.extend((0..n).map(|_| CallResult::Code(0)));
        v.push(CallResult::Code(9));
        assert_eq!(drive(v).1.as_deref(), Some(expected));
    }
}

#[test]
fn clap_loading_goes_step_by_step() {
    let mut step = ClapStep::Open;
    let mut n = 0;
    while step != ClapStep::Ready {
        step = clap_report(step, &CallResult::Done).expect("goes on");
        n += 1;
    }
    assert_eq!(n, 9);
    let broken = CallResult::Broken("why".into());
    let cases = [
        (ClapStep::Open, &broken, "clack PluginEntry::load: why"),
        (ClapStep::Factory, &CallResult::Absent, "plugin entry has no plugin factory"),
        (ClapStep::Descriptor, &CallResult::Absent, "plugin entry exposes zero plugins"),
        (ClapStep::Identifier, &CallResult::Absent, "plugin descriptor has null id"),
        (ClapStep::CString, &broken, "plugin id had interior NUL: why"),
        (ClapStep::Instance, &broken, "PluginInstance::new: why"),
        (ClapStep::Activate, &broken, "PluginInstance::activate: why"),
        (ClapStep::Process, &broken, "start_processing: why"),
    ];
    for (step, result, expected) in cases {
        assert_eq!(clap_report(step, result).err().map(text).as_deref(), Some(expected));
    }
    assert_eq!(clap_plugin_name(Some("Gain".into()), "/p/x.clap", Platform::Linux), "Gain");
    assert_eq!(clap_plugin_name(None, "/p/x.clap", Platform::Linux), "x.clap");
    assert_eq!(clap_plugin_name(None, "/", Platform::Linux), "unknown");
    assert_eq!(clap_plugin_name(None, "C:\\p\\x.clap", Platform::Windows), "x.clap");
}

#[test]
fn bundles_hold_their_binary_on_one_system_only() {
    assert_eq!(
        resolve_bundle_binary("/p/Gain.vst3", Platform::MacOs).ok().as_deref(),
        Some("/p/Gain.vst3/Contents/MacOS/Gain"),
    );
    assert_eq!(
        resolve_bundle_binary("/p/Gain.vst3/", Platform::MacOs).ok().as_deref(),
        Some("/p/Gain.vst3/Contents/MacOS/Gain"),
    );
    assert_eq!(
        resolve_bundle_binary("/", Platform::MacOs).err().map(text).as_deref(),
        Some("bundle path has no stem: /"),
    );
    assert_eq!(
        resolve_bundle_binary("/p/Gain.vst3", Platform::Linux).err().map(text).as_deref(),
        Some("VST3 bundle loading on Linux not implemented in Phase 5b v1"),
    );
    assert_eq!(
        resolve_bundle_binary("/p/Gain.vst3", Platform::Windows).err().map(text).as_deref(),
        Some("VST3 bundle loading on Windows not implemented in Phase 5b v1"),
    );
    assert_eq!(text(binary_missing("/x")), "bundle binary missing at /x");
    assert_eq!(next_main_id(1), 2);
    assert_eq!(next_main_id(u64::MAX), 1);
}

fn reported(id: u32, hidden: bool, step_count: i32) -> ReportedParam {
    ReportedParam {
        id,
        name: format!("p{id}"),
        units: "dB".into(),
        min: 0.0f32.to_bits(),
        max: 1.0f32.to_bits(),
        default: 0.5f32.to_bits(),
        step_count,
        hidden,
        automatable: true,
        modulatable: false,
    }
}

#[test]
fn described_and_visible_parameters_are_listed() {
    let params = list_params(vec![
        Some(reported(3, false, -1)),
        None,
        Some(reported(4, true, 0)),
        Some(reported(5, false, 7)),
    ]);
    let seen: Vec<(u32, u32, &str)> =
        params.iter().map(|p| (p.id, p.step_count, p.name.as_str())).collect();
    assert_eq!(seen, vec![(3, 0, "p3"), (5, 7, "p5")]);
    assert_eq!(params_to_query(-1), 0);
    assert_eq!(params_to_query(12), 12);
    assert_eq!(params_to_query(100_000), 4096);
}

#[test]
fn names_are_decoded() {
    let mut units = [0u16; 128];
    for (i, u) in "Cutoff \u{00B5}".encode_utf16().enumerate() {
        units[i] = u;
    }
    assert_eq!(string128_to_string(&units), "Cutoff \u{00B5}");
    assert_eq!(string128_to_string(&[0x41u16; 128]), "A".repeat(128));
    assert_eq!(string128_to_string(&[0xD83D, 0xDE00, 0x21, 0, 0x41]), "\u{1F600}!");
    assert_eq!(string128_to_string(&[0xD83D, 0x21]), "\u{FFFD}!");
    assert_eq!(
        string128_to_string(&[0xDC00, 0xD83D, 0xD83D, 0xDE00, 0xD83D]),
        "\u{FFFD}\u{FFFD}\u{1F600}\u{FFFD}"
    );
    assert_eq!(clap_param_name(b"Gain\0\0\0"), "Gain");
    assert_eq!(clap_param_name(b"a\0b"), "a\0b");
    assert_eq!(clap_param_name(&[0x47, 0xFF, 0]), "G\u{FFFD}");
}

#[test]
fn parameter_changes_are_staged_by_parameter() {
    let mut c = ParamChanges::new();
    c.stage(7, 0, 10);
    c.stage(9, 4, 11);
    c.stage(7, 8, 12);
    assert_eq!(c.parameter_count(), 2);
    assert_eq!(c.parameter_id(0), Some(7));
    assert_eq!(c.parameter_id(2), Some(0));
    assert_eq!(c.parameter_id(64), None);
    assert_eq!(c.point_count(0), 2);
    assert_eq!(c.point(0, 1), Some(Point { offset: 8, value: 12 }));
    assert_eq!(c.point(0, 2), None);
    assert_eq!(c.point(0, -1), None);
    assert_eq!(c.point(5, 0), None);
    assert_eq!(c.add_parameter(9), Some(1));
    assert_eq!(c.add_parameter(13), Some(2));
    assert_eq!(c.add_point(2, 1, 1), Some(0));
    c.clear();
    assert_eq!(c.parameter_count(), 0);
    assert_eq!(c.parameter_id(0), Some(0));
    assert_eq!(c.point_count(0), 0);
}

#[test]
fn queues_out_of_use_take_points_until_they_are_opened() {
    let mut c = ParamChanges::new();
    assert_eq!(c.add_point(0, 1, 5), Some(0));
    assert_eq!(c.add_point(64, 1, 5), None);
    assert_eq!(c.parameter_count(), 0);
    c.clear();
    assert_eq!(c.point(0, 0), Some(Point { offset: 1, value: 5 }));
    c.stage(3, 2, 9);
    assert_eq!(c.point_count(0), 1);
    assert_eq!(c.point(0, 0), Some(Point { offset: 2, value: 9 }));
}

#[test]
fn parameter_sets_are_picked_out() {
    let events = [
        (0, AudioCmd::ParamSet { param_id: 2, value: 7 }),
        (3, AudioCmd::NoteOn { pitch: 60, velocity: 90 }),
        (5, AudioCmd::ParamSet { param_id: u32::MAX, value: 8 }),
    ];
    let mut out = vec![(9, 9, 9)];
    stage_vst3_events(&events, &mut out);
    assert_eq!(out, vec![(0, 2, 7), (5, u32::MAX, 8)]);
}

#[test]
fn registered_instances_have_numbers_of_their_own() {
    let mut r: Registry<char> = Registry::new();
    assert_eq!(r.register(Ok('a')).ok(), Some(1));
    let failed = r.register(Err(HostError::LoadFailed("no".to_string())));
    assert_eq!(failed.err().map(text).as_deref(), Some("no"));
    assert_eq!(r.register(Ok('b')).ok(), Some(2));
    assert_eq!(r.release(1), Some('a'));
    assert_eq!(r.release(1), None);
    assert_eq!(r.register(Ok('c')).ok(), Some(3));
}

#[test]
fn parameter_changes_are_bounded() {
    let mut c = ParamChanges::new();
    for id in 0..100u32 {
        c.stage(id, 0, 0);
    }
    assert_eq!(c.parameter_count(), VST3_MAX_PARAM_QUEUES);
    assert_eq!(c.add_parameter(99), None);
    for i in 0..100 {
        c.stage(5, i, 0);
    }
    assert_eq!(c.point_count(5), VST3_MAX_POINTS_PER_QUEUE);
    assert_eq!(c.add_point(5, 0, 0), None);
}

#[test]
fn device_channels_are_filled_from_the_plugin() {
    assert_eq!(slot_source(8, 2, 0), SlotSource::Channel { channel: 0, frame: 0 });
    assert_eq!(slot_source(8, 2, 7), SlotSource::Channel { channel: 1, frame: 3 });
    assert_eq!(slot_source(8, 4, 7), SlotSource::Channel { channel: 1, frame: 1 });
    assert_eq!(slot_source(9, 2, 8), SlotSource::Silence);
    assert_eq!(slot_source(4, 1, 3), SlotSource::Mean { frame: 3 });
    assert_eq!(slot_source(4, 0, 3), SlotSource::Silence);
    assert_eq!(slot_source(1, 2, 0), SlotSource::Keep);
    assert_eq!(slot_source(20_000, 1, 8192), SlotSource::Silence);
    assert_eq!(frames_to_render(20_000, 2), 8192);
    assert_eq!(frames_to_render(20, 2), 10);
}

#[test]
fn commands_become_plugin_events() {
    let events = [
        (0, AudioCmd::NoteOn { pitch: 60, velocity: 90 }),
        (3, AudioCmd::AllNotesOff),
        (5, AudioCmd::ParamSet { param_id: 2, value: 7 }),
        (6, AudioCmd::ParamSet { param_id: u32::MAX, value: 7 }),
        (7, AudioCmd::ParamSet { param_id: 0, value: 8 }),
        (9, AudioCmd::NoteOff { pitch: 60 }),
    ];
    let mut staged = Vec::new();
    stage_clap_events(&events, &mut staged);
    assert_eq!(
        staged,
        vec![
            ClapEvent::NoteOn { offset: 0, key: 60, velocity: 90 },
            ClapEvent::Param { offset: 5, param_id: 2, value: 7 },
            ClapEvent::Param { offset: 7, param_id: 0, value: 8 },
            ClapEvent::NoteOff { offset: 9, key: 60 },
        ],
    );
    let many = vec![(0, AudioCmd::NoteOff { pitch: 1 }); 600];
    stage_clap_events(&many, &mut staged);
    assert_eq!(staged.len(), EVENT_BUFFER_CAPACITY);
}
