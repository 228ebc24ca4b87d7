//! Between a plugin's stereo channels and the device's interleaved buffer.
use crate::daemon::audio::{frames_in, frames_of, AudioCmd};
use vstd::prelude::*;

verus! {

/// The most frames that a plugin is asked for at once.
pub const MAX_FRAMES_PER_BUFFER: usize = 8192;

/// The channels of a plugin.
pub const CHANNELS_PER_PORT: usize = 2;

/// How many events a plugin is handed in a block.
pub const EVENT_BUFFER_CAPACITY: usize = 512;

/// Where a sample of the device's buffer comes from.
#[derive(Debug, Clone, Copy, PartialEq, Eq, Structural)]
pub enum SlotSource {
    /// It is left as it is.
    Keep,
    Silence,
    /// A frame of a plugin channel.
    Channel { channel: usize, frame: usize },
    /// The mean of both plugin channels in a frame.
    Mean { frame: usize },
}

/// The frames that a plugin renders for a buffer.
pub open spec fn rendered(samples: nat, channels: nat) -> nat {
    let n = frames_of(samples, channels);
    if n < MAX_FRAMES_PER_BUFFER {
        n
    } else {
        MAX_FRAMES_PER_BUFFER as nat
    }
}

/// Where the `i`th sample of a buffer comes from. A device with two channels or more
/// gets the plugin's, the second one also on every further channel; one with a
/// single channel gets their mean; what the plugin did not render is silent. A
/// buffer without a whole frame is left alone.
pub open spec fn source_of(samples: nat, channels: nat, i: nat) -> SlotSource {
    let frames = rendered(samples, channels);
    if frames == 0 {
        SlotSource::Keep
    } else if i >= frames * channels {
        SlotSource::Silence
    } else if channels >= CHANNELS_PER_PORT {
        let c = i % channels;
        SlotSource::Channel {
            channel: if c == 0 {
                0
            } else {
                1
            },
            frame: (i / channels) as usize,
        }
    } else {
        SlotSource::Mean { frame: i as usize }
    }
}

/// The frames that a plugin renders for a buffer.
pub fn frames_to_render(samples: usize, channels: usize) -> (r: usize)
    ensures
        r as nat == rendered(samples as nat, channels as nat),
        r <= MAX_FRAMES_PER_BUFFER,
{
    let n = frames_in(samples, channels);
    if n < MAX_FRAMES_PER_BUFFER {
        n
    } else {
        MAX_FRAMES_PER_BUFFER
    }
}

/// Where a sample of the device's buffer comes from.
pub fn slot_source(samples: usize, channels: usize, i: usize) -> (r: SlotSource)
    requires
        i < samples,
    ensures
        r == source_of(samples as nat, channels as nat, i as nat),
{
    let frames = frames_to_render(samples, channels);
    if frames == 0 {
        return SlotSource::Keep;
    }
    proof {
        let n = frames_of(samples as nat, channels as nat);
        if channels > 0 {
            vstd::arithmetic::div_mod::lemma_fundamental_div_mod(
                samples as int,
                channels as int,
            );
            assert(frames * channels <= samples) by (nonlinear_arith)
                requires
                    frames <= n,
                    samples == channels * n + samples as int % channels as int,
                    samples as int % channels as int >= 0,
            ;
        } else {
            assert(frames * channels == 0) by (nonlinear_arith)
                requires
                    channels == 0,
            ;
        }
    }
    if i >= frames * channels {
        SlotSource::Silence
    } else if channels >= CHANNELS_PER_PORT {
        let channel: usize = if i % channels == 0 {
            0
        } else {
            1
        };
        SlotSource::Channel { channel, frame: i / channels }
    } else {
        SlotSource::Mean { frame: i }
    }
}

/// Every sample that a plugin gives lies in what it rendered.
pub proof fn sources_are_rendered(samples: nat, channels: nat, i: nat)
    requires
        i < samples <= usize::MAX,
    ensures
        source_of(samples, channels, i) matches SlotSource::Channel { channel, frame } ==> channel
            < CHANNELS_PER_PORT && frame < rendered(samples, channels),
        source_of(samples, channels, i) matches SlotSource::Mean { frame } ==> frame < rendered(
            samples,
            channels,
        ),
{
    let frames = rendered(samples, channels);
    if i < frames * channels && channels > 0 {
        let f = i / channels;
        vstd::arithmetic::div_mod::lemma_fundamental_div_mod(i as int, channels as int);
        assert(f < frames) by (nonlinear_arith)
            requires
                i == channels * f + i as int % channels as int,
                i as int % channels as int >= 0,
                i < frames * channels,
                channels > 0,
        ;
        assert(channels == 1 ==> f == i) by (nonlinear_arith)
            requires
                i == channels * f + i as int % channels as int,
                0 <= i as int % channels as int,
                (i as int % channels as int) < channels,
        ;
    }
}

/// An event for a CLAP plugin. Values are the bits of singles.
#[derive(Debug, Clone, Copy, PartialEq, Eq, Structural)]
pub enum ClapEvent {
    NoteOn { offset: u32, key: u16, velocity: u8 },
    NoteOff { offset: u32, key: u16 },
    Param { offset: u32, param_id: u32, value: u32 },
}

/// Whether a number can be a parameter's: all ones stand for none.
pub open spec fn is_clap_id(raw: u32) -> bool {
    raw != u32::MAX
}

/// Calls `clack_host`'s `ClapId::from_raw`, which gives an identifier for every number
/// but the greatest.
#[verifier::external_body]
pub(crate) fn check_clap_id(raw: u32) -> (r: bool)
    ensures
        r == is_clap_id(raw),
{
    clack_host::utils::ClapId::from_raw(raw).is_some()
}

/// The event of a command. Letting all notes go has none, nor has a value for what is
/// no parameter.
pub open spec fn clap_event(e: (u32, AudioCmd)) -> Option<ClapEvent> {
    match e.1 {
        AudioCmd::NoteOn { pitch, velocity } => Some(
            ClapEvent::NoteOn { offset: e.0, key: pitch as u16, velocity },
        ),
        AudioCmd::NoteOff { pitch } => Some(
            ClapEvent::NoteOff { offset: e.0, key: pitch as u16 },
        ),
        AudioCmd::AllNotesOff => None,
        AudioCmd::ParamSet { param_id, value } => if is_clap_id(param_id) {
            Some(ClapEvent::Param { offset: e.0, param_id, value })
        } else {
            None
        },
    }
}

/// The events of a row of commands.
pub open spec fn clap_events(events: Seq<(u32, AudioCmd)>) -> Seq<ClapEvent>
    decreases events.len(),
{
    if events.len() == 0 {
        Seq::empty()
    } else {
        let rest = clap_events(events.drop_last());
        match clap_event(events.last()) {
            Some(e) => rest.push(e),
            None => rest,
        }
    }
}

/// The commands of a block that a plugin is handed: the first of them, up to the
/// capacity.
pub open spec fn first_events(events: Seq<(u32, AudioCmd)>) -> Seq<(u32, AudioCmd)> {
    if events.len() > EVENT_BUFFER_CAPACITY {
        events.take(EVENT_BUFFER_CAPACITY as int)
    } else {
        events
    }
}

/// Puts the events that a CLAP plugin is handed for a block into `out`.
pub fn stage_clap_events(events: &[(u32, AudioCmd)], out: &mut Vec<ClapEvent>)
    ensures
        final(out)@ == clap_events(first_events(events@)),
{
    out.clear();
    let n: usize = if events.len() > EVENT_BUFFER_CAPACITY {
        EVENT_BUFFER_CAPACITY
    } else {
        events.len()
    };
    assert(events@.take(0) == Seq::<(u32, AudioCmd)>::empty());
    for i in 0..n
        invariant
            n <= events@.len(),
            out@ == clap_events(events@.take(i as int)),
    {
        let (offset, cmd) = events[i];
        assert(events@.take(i + 1).drop_last() == events@.take(i as int));
        match cmd {
            AudioCmd::NoteOn { pitch, velocity } => {
                out.push(ClapEvent::NoteOn { offset, key: pitch as u16, velocity });
            },
            AudioCmd::NoteOff { pitch } => {
                out.push(ClapEvent::NoteOff { offset, key: pitch as u16 });
            },
            AudioCmd::AllNotesOff => {},
            AudioCmd::ParamSet { param_id, value } => {
                if check_clap_id(param_id) {
                    out.push(ClapEvent::Param { offset, param_id, value });
                }
            },
        }
    }
    assert(events@.take(n as int) == first_events(events@));
}

/// Where the sample of a device channel in a frame comes from: a device of two channels
/// or more gets the plugin's first channel on its first one and the second on all others,
/// in the same frame; a device of one gets the mean of both. Behind what the plugin
/// renders, which is the whole buffer but no more than it can, all is silent.
pub proof fn sample_comes_from_its_frame(samples: nat, channels: nat, frame: nat, channel: nat)
    requires
        channel < channels,
        frame * channels + channel < samples <= usize::MAX,
        samples >= channels,
    ensures
        ({
            let r = rendered(samples, channels);
            let s = source_of(samples, channels, frame * channels + channel);
            &&& frame < r && channels == 1 ==> s == (SlotSource::Mean { frame: frame as usize })
            &&& frame < r && channels >= 2 ==> s == (SlotSource::Channel {
                channel: if channel == 0 {
                    0
                } else {
                    1
                },
                frame: frame as usize,
            })
            &&& frame >= r ==> s == SlotSource::Silence
            &&& r <= 8192 && r * channels <= samples
            &&& r < 8192 ==> samples < (r + 1) * channels
        }),
{
    let r = rendered(samples, channels);
    let i = frame * channels + channel;
    crate::daemon::audio::frame_has_a_sample_for_every_channel(samples, channels);
    let n = frames_of(samples, channels);
    assert(n >= 1) by (nonlinear_arith)
        requires
            samples < (n + 1) * channels,
            samples >= channels,
            channels > 0,
    ;
    vstd::arithmetic::div_mod::lemma_fundamental_div_mod_converse(
        i as int,
        channels as int,
        frame as int,
        channel as int,
    );
    assert(channels * frame == frame * channels) by (nonlinear_arith);
    assert(i >= r * channels <==> frame >= r) by (nonlinear_arith)
        requires
            i == frame * channels + channel,
            channel < channels,
    ;
    assert(r * channels <= samples) by (nonlinear_arith)
        requires
            r <= n,
            n * channels <= samples,
    ;
    if channels == 1 {
        assert(frame * 1 == frame);
    }
}

/// A plugin is handed every command of a block in its order, on its frame: the keys that
/// are pressed and let go, and the values of parameters; letting all notes go is not
/// handed on, nor is a value for what is no parameter.
pub proof fn plugin_is_handed_every_command(events: Seq<(u32, AudioCmd)>, e: (u32, AudioCmd))
    ensures
        ({
            let (before, after) = (clap_events(events), clap_events(events.push(e)));
            match e.1 {
                AudioCmd::NoteOn { pitch, velocity } => after.len() == before.len() + 1
                    && after.drop_last() == before && (after.last() matches ClapEvent::NoteOn {
                    offset,
                    key,
                    velocity: v,
                } && offset == e.0 && key == pitch && v == velocity),
                AudioCmd::NoteOff { pitch } => after.len() == before.len() + 1 && after.drop_last()
                    == before && (after.last() matches ClapEvent::NoteOff { offset, key } && offset
                    == e.0 && key == pitch),
                AudioCmd::AllNotesOff => after == before,
                AudioCmd::ParamSet { param_id, value } => if param_id == u32::MAX {
                    after == before
                } else {
                    after.len() == before.len() + 1 && after.drop_last() == before && (
                    after.last() matches ClapEvent::Param { offset, param_id: p, value: v } && offset
                        == e.0 && p == param_id && v == value)
                },
            }
        }),
        clap_events(Seq::empty()) == Seq::<ClapEvent>::empty(),
        events.len() <= 512 ==> first_events(events) == events,
        events.len() > 512 ==> first_events(events) == events.take(512),
{
    assert(events.push(e).drop_last() == events);
    let (before, after) = (clap_events(events), clap_events(events.push(e)));
    if after.len() > before.len() {
        assert(after.drop_last() == before);
    }
}

/// A buffer without a whole frame is left alone, and nothing else is.
pub proof fn buffer_without_a_frame_is_left_alone(samples: nat, channels: nat, i: nat)
    ensures
        samples < channels ==> source_of(samples, channels, i) is Keep,
        0 < channels <= samples ==> !(source_of(samples, channels, i) is Keep),
{
    if channels > 0 {
        crate::daemon::audio::frame_has_a_sample_for_every_channel(samples, channels);
        let n = frames_of(samples, channels);
        if samples < channels {
            assert(n == 0) by (nonlinear_arith)
                requires
                    n * channels <= samples,
                    samples < channels,
            ;
        } else {
            assert(n >= 1) by (nonlinear_arith)
                requires
                    samples < (n + 1) * channels,
                    samples >= channels,
            ;
        }
    }
}

} // verus!
