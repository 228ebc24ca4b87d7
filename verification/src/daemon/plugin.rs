//! The order in which a plugin is brought up, and what can go wrong on the way.
use crate::daemon::host::{HostError, HostErrorView};
use crate::daemon::paths::{file_name, name_of, Platform};
use crate::text::{push_signed, signed_decimal, str_eq};
use vstd::prelude::*;
use vstd::string::*;

verus! {

/// What a call into a plugin came to.
#[derive(Debug)]
pub enum CallResult {
    /// It went well.
    Done,
    /// It returned a code; zero means that it went well.
    Code(i32),
    /// It gave nothing.
    Absent,
    /// It could not be made, for this reason.
    Broken(String),
    /// It gave a number.
    Count(i32),
    /// It described a class. A text that cannot be read is `None`.
    Class { code: i32, category: Option<String>, name: Option<String> },
}

/// The code that a call returned.
pub open spec fn code_of(r: CallResult) -> int {
    match r {
        CallResult::Code(c) => c as int,
        _ => 0,
    }
}

/// Whether a call failed: it returned another code than zero, or gave nothing.
pub open spec fn has_failed(r: CallResult) -> bool {
    code_of(r) != 0 || r is Absent
}

/// The step that a VST3 plugin's loading has come to: the call that is next.
#[derive(Debug, Clone, Copy, PartialEq, Eq, Structural)]
pub enum Vst3Step {
    /// Map the bundle's library and run its entry point.
    Open,
    /// Get the class factory.
    Factory,
    /// Count its classes.
    Count,
    /// Describe a class.
    Class(i32),
    /// Create the chosen class as a component.
    Component,
    /// Initialize the component.
    Initialize,
    /// Query its audio processor.
    Processor,
    /// Query its edit controller.
    Controller,
    /// Ask for the class of a separate controller.
    ControllerClass,
    /// Create the separate controller.
    ControllerCreate,
    /// Initialize the separate controller.
    ControllerInit,
    /// Connect component and controller.
    ControllerConnect,
    /// List the parameters.
    Params,
    /// Ask for stereo in and out.
    Buses,
    /// Set up processing.
    Setup,
    /// Activate the input bus.
    InputBus,
    /// Activate the output bus.
    OutputBus,
    /// Activate the component.
    Activate,
    /// Start processing.
    Process,
    /// The plugin can play.
    Ready,
}

/// Whose edit controller is used.
#[derive(Debug, Clone, Copy, PartialEq, Eq, Structural)]
pub enum ControllerKind {
    Nobody,
    /// The component is its own controller.
    Same,
    /// The controller is an object of its own, to be terminated by itself.
    Separate,
}

/// The loading of a VST3 plugin.
#[derive(Debug)]
pub struct Vst3Load {
    pub step: Vst3Step,
    pub classes: i32,
    pub name: String,
    pub controller: ControllerKind,
}

/// What the loading of a VST3 plugin holds.
#[verifier::ext_equal]
pub struct Vst3LoadView {
    pub step: Vst3Step,
    pub classes: i32,
    pub name: Seq<char>,
    pub controller: ControllerKind,
}

impl View for Vst3Load {
    type V = Vst3LoadView;

    open spec fn view(&self) -> Vst3LoadView {
        Vst3LoadView {
            step: self.step,
            classes: self.classes,
            name: self.name@,
            controller: self.controller,
        }
    }
}

/// The call whose code a failure at a step reports.
pub open spec fn failed_call(step: Vst3Step) -> Seq<char> {
    match step {
        Vst3Step::Component => "createInstance(IComponent) failed: tresult="@,
        Vst3Step::Initialize => "IComponent::initialize failed: tresult="@,
        Vst3Step::Buses => "setBusArrangements stereo,stereo failed: tresult="@,
        Vst3Step::Setup => "setupProcessing failed: tresult="@,
        Vst3Step::InputBus => "activateBus(input 0) failed: tresult="@,
        Vst3Step::OutputBus => "activateBus(output 0) failed: tresult="@,
        Vst3Step::Activate => "setActive(true) failed: tresult="@,
        _ => "setProcessing(true) failed: tresult="@,
    }
}

/// Whether a failure at a step ends the loading with that call's code.
pub open spec fn is_checked(step: Vst3Step) -> bool {
    step is Component || step is Initialize || step is Buses || step is Setup || step is InputBus
        || step is OutputBus || step is Activate || step is Process
}

/// Whether a description is that of a class to load.
pub open spec fn is_audio_class(r: CallResult) -> bool {
    r matches CallResult::Class { code, category: Some(category), .. } && code == 0 && category@
        == "Audio Module Class"@
}

/// The name that a class is known by.
pub open spec fn class_name(name: Option<String>) -> Seq<char> {
    match name {
        Some(n) => n@,
        None => "unknown"@,
    }
}

/// Why the loading of the plugin at `path` ends at a step; `None` where it goes on.
pub open spec fn vst3_error(l: Vst3LoadView, path: Seq<char>, r: CallResult) -> Option<Seq<char>> {
    match l.step {
        Vst3Step::Open => match r {
            CallResult::Broken(e) => Some("dlopen "@ + path + ": "@ + e@),
            _ => None,
        },
        Vst3Step::Factory => match r {
            CallResult::Broken(e) => Some("GetPluginFactory missing: "@ + e@),
            CallResult::Absent => Some("GetPluginFactory returned null"@),
            _ => None,
        },
        Vst3Step::Count => {
            let n = counted(r);
            if n <= 0 {
                Some("factory exposes "@ + signed_decimal(n) + " classes"@)
            } else {
                None
            }
        },
        Vst3Step::Class(i) => if !is_audio_class(r) && i + 1 >= l.classes {
            Some("no Audio Module Class in factory"@)
        } else {
            None
        },
        Vst3Step::Processor => if r is Absent {
            Some("component does not expose IAudioProcessor"@)
        } else {
            None
        },
        _ => if is_checked(l.step) && has_failed(r) {
            Some(failed_call(l.step) + signed_decimal(code_of(r)))
        } else {
            None
        },
    }
}

/// The number that a call gave.
pub open spec fn counted(r: CallResult) -> int {
    match r {
        CallResult::Count(n) => n as int,
        _ => 0,
    }
}

/// The loading after a call that did not end it.
pub open spec fn vst3_after(l: Vst3LoadView, r: CallResult) -> Vst3LoadView {
    match l.step {
        Vst3Step::Open => Vst3LoadView { step: Vst3Step::Factory, ..l },
        Vst3Step::Factory => Vst3LoadView { step: Vst3Step::Count, ..l },
        Vst3Step::Count => Vst3LoadView {
            step: Vst3Step::Class(0),
            classes: counted(r) as i32,
            ..l
        },
        Vst3Step::Class(i) => match r {
            CallResult::Class { code, category, name } => if is_audio_class(r) {
                Vst3LoadView { step: Vst3Step::Component, name: class_name(name), ..l }
            } else {
                Vst3LoadView { step: Vst3Step::Class((i + 1) as i32), ..l }
            },
            _ => Vst3LoadView { step: Vst3Step::Class((i + 1) as i32), ..l },
        },
        Vst3Step::Component => Vst3LoadView { step: Vst3Step::Initialize, ..l },
        Vst3Step::Initialize => Vst3LoadView { step: Vst3Step::Processor, ..l },
        Vst3Step::Processor => Vst3LoadView { step: Vst3Step::Controller, ..l },
        Vst3Step::Controller => if r is Absent {
            Vst3LoadView { step: Vst3Step::ControllerClass, ..l }
        } else {
            Vst3LoadView { step: Vst3Step::Params, controller: ControllerKind::Same, ..l }
        },
        Vst3Step::ControllerClass => Vst3LoadView {
            step: if has_failed(r) {
                Vst3Step::Buses
            } else {
                Vst3Step::ControllerCreate
            },
            ..l
        },
        Vst3Step::ControllerCreate => Vst3LoadView {
            step: if has_failed(r) {
                Vst3Step::Buses
            } else {
                Vst3Step::ControllerInit
            },
            ..l
        },
        Vst3Step::ControllerInit => Vst3LoadView {
            step: if has_failed(r) {
                Vst3Step::Buses
            } else {
                Vst3Step::ControllerConnect
            },
            ..l
        },
        Vst3Step::ControllerConnect => Vst3LoadView {
            step: Vst3Step::Params,
            controller: ControllerKind::Separate,
            ..l
        },
        Vst3Step::Params => Vst3LoadView { step: Vst3Step::Buses, ..l },
        Vst3Step::Buses => Vst3LoadView { step: Vst3Step::Setup, ..l },
        Vst3Step::Setup => Vst3LoadView { step: Vst3Step::InputBus, ..l },
        Vst3Step::InputBus => Vst3LoadView { step: Vst3Step::OutputBus, ..l },
        Vst3Step::OutputBus => Vst3LoadView { step: Vst3Step::Activate, ..l },
        Vst3Step::Activate => Vst3LoadView { step: Vst3Step::Process, ..l },
        Vst3Step::Process => Vst3LoadView { step: Vst3Step::Ready, ..l },
        Vst3Step::Ready => l,
    }
}

/// Whether the class that is described next is one of those that were counted.
pub open spec fn load_wf(l: Vst3LoadView) -> bool {
    l.step matches Vst3Step::Class(i) ==> 0 <= i < l.classes
}

/// How far a loading has come.
pub open spec fn progress(l: Vst3LoadView) -> int {
    match l.step {
        Vst3Step::Open => 0,
        Vst3Step::Factory => 1,
        Vst3Step::Count => 2,
        Vst3Step::Class(i) => 3 + i,
        Vst3Step::Component => 0x1_0000_0000,
        Vst3Step::Initialize => 0x1_0000_0001,
        Vst3Step::Processor => 0x1_0000_0002,
        Vst3Step::Controller => 0x1_0000_0003,
        Vst3Step::ControllerClass => 0x1_0000_0004,
        Vst3Step::ControllerCreate => 0x1_0000_0005,
        Vst3Step::ControllerInit => 0x1_0000_0006,
        Vst3Step::ControllerConnect => 0x1_0000_0007,
        Vst3Step::Params => 0x1_0000_0008,
        Vst3Step::Buses => 0x1_0000_0009,
        Vst3Step::Setup => 0x1_0000_000A,
        Vst3Step::InputBus => 0x1_0000_000B,
        Vst3Step::OutputBus => 0x1_0000_000C,
        Vst3Step::Activate => 0x1_0000_000D,
        Vst3Step::Process => 0x1_0000_000E,
        Vst3Step::Ready => 0x1_0000_000F,
    }
}

/// The failure of a call that returned a code.
fn code_failure(head: &str, code: i32) -> (r: HostError)
    ensures
        r@ == HostErrorView::LoadFailed(head@ + signed_decimal(code as int)),
{
    let mut s = head.to_owned();
    push_signed(&mut s, code as i64);
    HostError::LoadFailed(s)
}

/// A failure in some words.
fn failure(words: &str) -> (r: HostError)
    ensures
        r@ == HostErrorView::LoadFailed(words@),
{
    HostError::LoadFailed(words.to_owned())
}

/// A failure in some words with a reason.
pub fn failure_because(words: &str, reason: &str) -> (r: HostError)
    ensures
        r@ == HostErrorView::LoadFailed(words@ + reason@),
{
    let mut s = words.to_owned();
    s.append(reason);
    HostError::LoadFailed(s)
}

fn failed(r: &CallResult) -> (b: bool)
    ensures
        b == has_failed(*r),
{
    match r {
        CallResult::Code(c) => *c != 0,
        CallResult::Absent => true,
        _ => false,
    }
}

fn code(r: &CallResult) -> (c: i32)
    ensures
        c as int == code_of(*r),
{
    match r {
        CallResult::Code(c) => *c,
        _ => 0,
    }
}

impl Vst3Load {
    pub fn new() -> (r: Self)
        ensures
            r@ == (Vst3LoadView {
                step: Vst3Step::Open,
                classes: 0,
                name: Seq::empty(),
                controller: ControllerKind::Nobody,
            }),
            load_wf(r@),
    {
        Vst3Load {
            step: Vst3Step::Open,
            classes: 0,
            name: String::new(),
            controller: ControllerKind::Nobody,
        }
    }

    /// Goes on after a checked call.
    fn checked(&mut self, head: &str, next: Vst3Step, result: &CallResult) -> (r: Result<
        (),
        HostError,
    >)
        ensures
            has_failed(*result) ==> r is Err && r->Err_0@ == HostErrorView::LoadFailed(
                head@ + signed_decimal(code_of(*result)),
            ) && final(self)@ == old(self)@,
            !has_failed(*result) ==> r is Ok && final(self)@ == (Vst3LoadView {
                step: next,
                ..old(self)@
            }),
    {
        if failed(result) {
            return Err(code_failure(head, code(result)));
        }
        self.step = next;
        Ok(())
    }

    /// Takes in what the call of the current step came to: the loading goes on to
    /// the next step, or ends. `path` is that of the bundle's binary.
    pub fn report(&mut self, path: &str, result: CallResult) -> (r: Result<(), HostError>)
        requires
            load_wf(old(self)@),
        ensures
            load_wf(final(self)@),
            match vst3_error(old(self)@, path@, result) {
                Some(text) => r is Err && r->Err_0@ == HostErrorView::LoadFailed(text)
                    && final(self)@ == old(self)@,
                None => r is Ok && final(self)@ == vst3_after(old(self)@, result),
            },
    {
        match self.step {
            Vst3Step::Open => {
                if let CallResult::Broken(e) = &result {
                    let mut s = "dlopen ".to_owned();
                    s.append(path);
                    s.append(": ");
                    s.append(e.as_str());
                    return Err(HostError::LoadFailed(s));
                }
                self.step = Vst3Step::Factory;
                Ok(())
            },
            Vst3Step::Factory => {
                match &result {
                    CallResult::Broken(e) => {
                        return Err(failure_because("GetPluginFactory missing: ", e.as_str()));
                    },
                    CallResult::Absent => {
                        return Err(failure("GetPluginFactory returned null"));
                    },
                    _ => {},
                }
                self.step = Vst3Step::Count;
                Ok(())
            },
            Vst3Step::Count => {
                let n: i32 = match &result {
                    CallResult::Count(n) => *n,
                    _ => 0,
                };
                if n <= 0 {
                    let mut s = "factory exposes ".to_owned();
                    push_signed(&mut s, n as i64);
                    s.append(" classes");
                    return Err(HostError::LoadFailed(s));
                }
                self.classes = n;
                self.step = Vst3Step::Class(0);
                Ok(())
            },
            Vst3Step::Class(i) => {
                if let CallResult::Class { code, category: Some(category), name } = result {
                    if code == 0 && str_eq(category.as_str(), "Audio Module Class") {
                        self.name =
                        match name {
                            Some(n) => n,
                            None => "unknown".to_owned(),
                        };
                        self.step = Vst3Step::Component;
                        return Ok(());
                    }
                }
                if i + 1 >= self.classes {
                    return Err(failure("no Audio Module Class in factory"));
                }
                self.step = Vst3Step::Class(i + 1);
                Ok(())
            },
            Vst3Step::Component => self.checked(
                "createInstance(IComponent) failed: tresult=",
                Vst3Step::Initialize,
                &result,
            ),
            Vst3Step::Initialize => self.checked(
                "IComponent::initialize failed: tresult=",
                Vst3Step::Processor,
                &result,
            ),
            Vst3Step::Processor => {
                if let CallResult::Absent = &result {
                    return Err(failure("component does not expose IAudioProcessor"));
                }
                self.step = Vst3Step::Controller;
                Ok(())
            },
            Vst3Step::Controller => {
                if let CallResult::Absent = &result {
                    self.step = Vst3Step::ControllerClass;
                } else {
                    self.controller = ControllerKind::Same;
                    self.step = Vst3Step::Params;
                }
                Ok(())
            },
            Vst3Step::ControllerClass => {
                self.step =
                if failed(&result) {
                    Vst3Step::Buses
                } else {
                    Vst3Step::ControllerCreate
                };
                Ok(())
            },
            Vst3Step::ControllerCreate => {
                self.step =
                if failed(&result) {
                    Vst3Step::Buses
                } else {
                    Vst3Step::ControllerInit
                };
                Ok(())
            },
            Vst3Step::ControllerInit => {
                self.step =
                if failed(&result) {
                    Vst3Step::Buses
                } else {
                    Vst3Step::ControllerConnect
                };
                Ok(())
            },
            Vst3Step::ControllerConnect => {
                self.controller = ControllerKind::Separate;
                self.step = Vst3Step::Params;
                Ok(())
            },
            Vst3Step::Params => {
                self.step = Vst3Step::Buses;
                Ok(())
            },
            Vst3Step::Buses => self.checked(
                "setBusArrangements stereo,stereo failed: tresult=",
                Vst3Step::Setup,
                &result,
            ),
            Vst3Step::Setup => self.checked(
                "setupProcessing failed: tresult=",
                Vst3Step::InputBus,
                &result,
            ),
            Vst3Step::InputBus => self.checked(
                "activateBus(input 0) failed: tresult=",
                Vst3Step::OutputBus,
                &result,
            ),
            Vst3Step::OutputBus => self.checked(
                "activateBus(output 0) failed: tresult=",
                Vst3Step::Activate,
                &result,
            ),
            Vst3Step::Activate => self.checked(
                "setActive(true) failed: tresult=",
                Vst3Step::Process,
                &result,
            ),
            Vst3Step::Process => self.checked(
                "setProcessing(true) failed: tresult=",
                Vst3Step::Ready,
                &result,
            ),
            Vst3Step::Ready => Ok(()),
        }
    }
}

/// Every call that does not end the loading brings it forward, so that it ends or
/// gets ready.
pub proof fn loading_moves_on(l: Vst3LoadView, path: Seq<char>, r: CallResult)
    requires
        load_wf(l),
        l.step != Vst3Step::Ready,
        vst3_error(l, path, r) is None,
    ensures
        load_wf(vst3_after(l, r)),
        progress(l) < progress(vst3_after(l, r)) <= 0x1_0000_000F,
{
}

/// A plugin gets ready only by its last call, and that one must have gone well.
pub proof fn ready_after_processing_started(l: Vst3LoadView, path: Seq<char>, r: CallResult)
    requires
        vst3_error(l, path, r) is None,
        l.step != Vst3Step::Ready,
        vst3_after(l, r).step == Vst3Step::Ready,
    ensures
        l.step == Vst3Step::Process,
        !has_failed(r),
{
}

/// What goes wrong with a separate controller does not end the loading: the plugin
/// comes up without parameters.
pub proof fn controller_trouble_is_not_fatal(l: Vst3LoadView, path: Seq<char>, r: CallResult)
    requires
        l.step is Controller || l.step is ControllerClass || l.step is ControllerCreate
            || l.step is ControllerInit || l.step is ControllerConnect || l.step is Params,
    ensures
        vst3_error(l, path, r) is None,
        (l.step is ControllerClass || l.step is ControllerCreate || l.step is ControllerInit)
            && has_failed(r) ==> vst3_after(l, r) == (Vst3LoadView { step: Vst3Step::Buses, ..l }),
{
}

/// The step that a CLAP plugin's loading has come to: the call that is next.
#[derive(Debug, Clone, Copy, PartialEq, Eq, Structural)]
pub enum ClapStep {
    /// Map the library and run its entry.
    Open,
    /// Get the plugin factory.
    Factory,
    /// Describe the first plugin.
    Descriptor,
    /// Get that plugin's identifier.
    Identifier,
    /// Turn the identifier into a C string.
    CString,
    /// Create the instance.
    Instance,
    /// List the parameters.
    Params,
    /// Activate the instance.
    Activate,
    /// Start processing.
    Process,
    /// The plugin can play.
    Ready,
}

/// Why the loading of a CLAP plugin ends at a step; `None` where it goes on.
pub open spec fn clap_error(step: ClapStep, r: CallResult) -> Option<Seq<char>> {
    match (step, r) {
        (ClapStep::Open, CallResult::Broken(e)) => Some("clack PluginEntry::load: "@ + e@),
        (ClapStep::Factory, CallResult::Absent) => Some("plugin entry has no plugin factory"@),
        (ClapStep::Descriptor, CallResult::Absent) => Some("plugin entry exposes zero plugins"@),
        (ClapStep::Identifier, CallResult::Absent) => Some("plugin descriptor has null id"@),
        (ClapStep::CString, CallResult::Broken(e)) => Some("plugin id had interior NUL: "@ + e@),
        (ClapStep::Instance, CallResult::Broken(e)) => Some("PluginInstance::new: "@ + e@),
        (ClapStep::Activate, CallResult::Broken(e)) => Some("PluginInstance::activate: "@ + e@),
        (ClapStep::Process, CallResult::Broken(e)) => Some("start_processing: "@ + e@),
        _ => None,
    }
}

/// The step behind a step.
pub open spec fn clap_next(step: ClapStep) -> ClapStep {
    match step {
        ClapStep::Open => ClapStep::Factory,
        ClapStep::Factory => ClapStep::Descriptor,
        ClapStep::Descriptor => ClapStep::Identifier,
        ClapStep::Identifier => ClapStep::CString,
        ClapStep::CString => ClapStep::Instance,
        ClapStep::Instance => ClapStep::Params,
        ClapStep::Params => ClapStep::Activate,
        ClapStep::Activate => ClapStep::Process,
        ClapStep::Process => ClapStep::Ready,
        ClapStep::Ready => ClapStep::Ready,
    }
}

/// Takes in what the call of a step came to: gives the next step, or why the
/// loading ends.
pub fn clap_report(step: ClapStep, result: &CallResult) -> (r: Result<ClapStep, HostError>)
    ensures
        match clap_error(step, *result) {
            Some(text) => r is Err && r->Err_0@ == HostErrorView::LoadFailed(text),
            None => r == Ok::<ClapStep, HostError>(clap_next(step)),
        },
{
    match (step, result) {
        (ClapStep::Open, CallResult::Broken(e)) => Err(
            failure_because("clack PluginEntry::load: ", e.as_str()),
        ),
        (ClapStep::Factory, CallResult::Absent) => Err(
            failure("plugin entry has no plugin factory"),
        ),
        (ClapStep::Descriptor, CallResult::Absent) => Err(
            failure("plugin entry exposes zero plugins"),
        ),
        (ClapStep::Identifier, CallResult::Absent) => Err(
            failure("plugin descriptor has null id"),
        ),
        (ClapStep::CString, CallResult::Broken(e)) => Err(
            failure_because("plugin id had interior NUL: ", e.as_str()),
        ),
        (ClapStep::Instance, CallResult::Broken(e)) => Err(
            failure_because("PluginInstance::new: ", e.as_str()),
        ),
        (ClapStep::Activate, CallResult::Broken(e)) => Err(
            failure_because("PluginInstance::activate: ", e.as_str()),
        ),
        (ClapStep::Process, CallResult::Broken(e)) => Err(
            failure_because("start_processing: ", e.as_str()),
        ),
        _ => Ok(
            match step {
                ClapStep::Open => ClapStep::Factory,
                ClapStep::Factory => ClapStep::Descriptor,
                ClapStep::Descriptor => ClapStep::Identifier,
                ClapStep::Identifier => ClapStep::CString,
                ClapStep::CString => ClapStep::Instance,
                ClapStep::Instance => ClapStep::Params,
                ClapStep::Params => ClapStep::Activate,
                ClapStep::Activate => ClapStep::Process,
                ClapStep::Process => ClapStep::Ready,
                ClapStep::Ready => ClapStep::Ready,
            },
        ),
    }
}

/// The name of a CLAP plugin: what its description says, else its file's name.
pub open spec fn clap_name(
    described: Option<Seq<char>>,
    path: Seq<char>,
    p: Platform,
) -> Seq<char> {
    match described {
        Some(n) => n,
        None => match file_name(path, p) {
            Some(n) => n,
            None => "unknown"@,
        },
    }
}

/// The name under which a CLAP plugin is known.
pub fn clap_plugin_name(described: Option<String>, path: &str, platform: Platform) -> (r: String)
    ensures
        r@ == clap_name(
            match described {
                Some(s) => Some(s@),
                None => None,
            },
            path@,
            platform,
        ),
{
    match described {
        Some(n) => n,
        None => match name_of(path, platform) {
            Some(n) => crate::text::string_of(&n),
            None => "unknown".to_owned(),
        },
    }
}

/// The number behind a plugin's number on its own thread; 1 follows the greatest.
pub open spec fn main_id_after(id: u64) -> u64 {
    if id == u64::MAX {
        1
    } else {
        (id + 1) as u64
    }
}

/// The number behind a plugin's number on its own thread.
pub fn next_main_id(id: u64) -> (r: u64)
    ensures
        r == main_id_after(id),
{
    if id == u64::MAX {
        1
    } else {
        id + 1
    }
}

/// A name without its extension.
pub open spec fn stem_of(name: Seq<char>) -> Seq<char> {
    match crate::daemon::paths::extension_of(name) {
        Some(ext) => name.take(name.len() - ext.len() - 1),
        None => name,
    }
}

/// The path with another part behind it.
pub open spec fn joined(path: Seq<char>, part: Seq<char>) -> Seq<char> {
    if path.len() == 0 || path.last() == '/' {
        path + part
    } else {
        path + "/"@ + part
    }
}

/// Where a bundle's binary lies, or why it cannot be said.
pub open spec fn bundle_binary(path: Seq<char>, p: Platform) -> Result<Seq<char>, Seq<char>> {
    match p {
        Platform::MacOs => match file_name(path, p) {
            Some(name) => Ok(joined(path, "Contents/MacOS/"@ + stem_of(name))),
            None => Err("bundle path has no stem: "@ + path),
        },
        Platform::Linux => Err("VST3 bundle loading on Linux not implemented in Phase 5b v1"@),
        Platform::Windows => Err(
            "VST3 bundle loading on Windows not implemented in Phase 5b v1"@,
        ),
    }
}

/// Where a bundle's binary lies.
pub fn resolve_bundle_binary(path: &str, platform: Platform) -> (r: Result<String, HostError>)
    ensures
        match bundle_binary(path@, platform) {
            Ok(binary) => r is Ok && r->Ok_0@ == binary,
            Err(text) => r is Err && r->Err_0@ == HostErrorView::LoadFailed(text),
        },
{
    match platform {
        Platform::MacOs => match name_of(path, platform) {
            Some(name) => {
                let stem = crate::daemon::paths::stem(&name);
                let mut tail = "Contents/MacOS/".to_owned();
                tail.append(crate::text::string_of(&stem).as_str());
                let chars = crate::text::chars_of(path);
                let mut r = path.to_owned();
                if chars.len() > 0 && chars[chars.len() - 1] != '/' {
                    r.append("/");
                }
                r.append(tail.as_str());
                Ok(r)
            },
            None => Err(failure_because("bundle path has no stem: ", path)),
        },
        Platform::Linux => Err(
            failure("VST3 bundle loading on Linux not implemented in Phase 5b v1"),
        ),
        Platform::Windows => Err(
            failure("VST3 bundle loading on Windows not implemented in Phase 5b v1"),
        ),
    }
}

/// The failure of a bundle whose binary is not there.
pub fn binary_missing(binary: &str) -> (r: HostError)
    ensures
        r@ == HostErrorView::LoadFailed("bundle binary missing at "@ + binary@),
{
    failure_because("bundle binary missing at ", binary)
}

/// The calls of a loading come in their order, and none is left out: every step is
/// reached only from the one before it. Of the controller's, those that make a separate
/// one are left out where the component is its own, and the rest of them where one of
/// them fails; the parameters are listed where there is a controller.
pub proof fn loading_leaves_out_no_call(l: Vst3LoadView, r: CallResult)
    requires
        load_wf(l),
        l.step != Vst3Step::Ready,
    ensures
        ({
            let (a, b) = (l.step, vst3_after(l, r).step);
            &&& b is Open ==> false
            &&& b is Factory ==> a is Open
            &&& b is Count ==> a is Factory
            &&& b matches Vst3Step::Class(i) ==> (i == 0 && a is Count) || (
            a matches Vst3Step::Class(j) && i == j + 1)
            &&& b is Component ==> a is Class && is_audio_class(r)
            &&& b is Initialize ==> a is Component
            &&& b is Processor ==> a is Initialize
            &&& b is Controller ==> a is Processor
            &&& b is ControllerClass ==> a is Controller && r is Absent
            &&& b is ControllerCreate ==> a is ControllerClass && !has_failed(r)
            &&& b is ControllerInit ==> a is ControllerCreate && !has_failed(r)
            &&& b is ControllerConnect ==> a is ControllerInit && !has_failed(r)
            &&& b is Params ==> (a is Controller && !(r is Absent)) || a is ControllerConnect
            &&& b is Buses ==> a is Params || ((a is ControllerClass || a is ControllerCreate
                || a is ControllerInit) && has_failed(r))
            &&& b is Setup ==> a is Buses
            &&& b is InputBus ==> a is Setup
            &&& b is OutputBus ==> a is InputBus
            &&& b is Activate ==> a is OutputBus
            &&& b is Process ==> a is Activate
            &&& b is Ready ==> a is Process
        }),
{
}

/// A call that must go well ends the loading where it fails, and the failure tells its
/// code; a plugin without a factory, without classes, without an audio class or without a
/// processor is not loaded either. Anything else goes on.
pub proof fn failed_calls_end_the_loading(l: Vst3LoadView, path: Seq<char>, r: CallResult)
    requires
        load_wf(l),
    ensures
        ({
            let e = vst3_error(l, path, r);
            let must = l.step is Component || l.step is Initialize || l.step is Buses
                || l.step is Setup || l.step is InputBus || l.step is OutputBus
                || l.step is Activate || l.step is Process;
            &&& must ==> (e is Some <==> (r is Absent || (r matches CallResult::Code(c) && c != 0)))
            &&& r matches CallResult::Code(c) ==> must && c != 0 ==> exists|head: Seq<char>|
                e == Some(#[trigger] (head + signed_decimal(c as int)))
            &&& must && r is Absent ==> exists|head: Seq<char>|
                e == Some(#[trigger] (head + signed_decimal(0)))
            &&& l.step is Open ==> (e is Some <==> r is Broken)
            &&& l.step is Factory ==> (e is Some <==> r is Broken || r is Absent)
            &&& l.step is Count ==> (e is None <==> (r matches CallResult::Count(n) && n > 0))
            &&& l.step is Processor ==> (e is Some <==> r is Absent)
            &&& l.step matches Vst3Step::Class(i) ==> (e is Some <==> !is_audio_class(r) && i + 1
                == l.classes)
            &&& !must && !(l.step is Open) && !(l.step is Factory) && !(l.step is Count)
                && !(l.step is Processor) && !(l.step is Class) ==> e is None
        }),
{
    let head = failed_call(l.step);
    assert(head + signed_decimal(code_of(r)) == head + signed_decimal(code_of(r)));
}

/// The class that is loaded is the first audio class, under its own name, and as many
/// classes are looked at as were counted. The controller is the component itself where
/// that has one, and a separate one where that was connected.
pub proof fn loading_keeps_what_it_learns(l: Vst3LoadView, r: CallResult)
    ensures
        ({
            let a = vst3_after(l, r);
            &&& l.step is Count ==> (r matches CallResult::Count(n) ==> a.classes == n)
            &&& !(l.step is Count) ==> a.classes == l.classes
            &&& (r matches CallResult::Class { code, category: Some(category), name: Some(name) })
                && l.step is Class && is_audio_class(r) ==> (
            r matches CallResult::Class { name: Some(name), .. } && a.name == name@)
            &&& !(l.step is Class) ==> a.name == l.name
            &&& a.controller != l.controller ==> (l.step is Controller && a.controller
                == ControllerKind::Same) || (l.step is ControllerConnect && a.controller
                == ControllerKind::Separate)
            &&& l.step is Controller && !(r is Absent) ==> a.controller == ControllerKind::Same
            &&& l.step is ControllerConnect ==> a.controller == ControllerKind::Separate
        }),
{
}

/// A CLAP plugin is brought up call by call, none left out, and a call that gives nothing
/// or cannot be made ends it where it matters.
pub proof fn clap_loading_leaves_out_no_call(s: ClapStep, r: CallResult)
    ensures
        clap_next(s) is Factory ==> s is Open,
        clap_next(s) is Descriptor ==> s is Factory,
        clap_next(s) is Identifier ==> s is Descriptor,
        clap_next(s) is CString ==> s is Identifier,
        clap_next(s) is Instance ==> s is CString,
        clap_next(s) is Params ==> s is Instance,
        clap_next(s) is Activate ==> s is Params,
        clap_next(s) is Process ==> s is Activate,
        clap_next(s) is Ready ==> s is Process || s is Ready,
        !(clap_next(s) is Open),
        clap_error(s, r) is Some <==> (r is Broken && (s is Open || s is CString || s is Instance
            || s is Activate || s is Process)) || (r is Absent && (s is Factory || s is Descriptor
            || s is Identifier)),
        r matches CallResult::Broken(why) ==> (clap_error(s, r) matches Some(text) ==> exists|
            head: Seq<char>,
        |
            text == #[trigger] (head + why@)),
{
    if let CallResult::Broken(why) = r {
        if let Some(text) = clap_error(s, r) {
            let head = match s {
                ClapStep::Open => "clack PluginEntry::load: "@,
                ClapStep::CString => "plugin id had interior NUL: "@,
                ClapStep::Instance => "PluginInstance::new: "@,
                ClapStep::Activate => "PluginInstance::activate: "@,
                _ => "start_processing: "@,
            };
            assert(text == head + why@);
        }
    }
}

/// The number behind a number is another one, and never zero.
pub proof fn next_number_is_another(id: u64)
    ensures
        main_id_after(id) != 0,
        main_id_after(id) != id,
        id < u64::MAX ==> main_id_after(id) == id + 1,
{
}

/// A bundle's binary lies in it under the bundle's own name without the extension, in the
/// place that macOS has for it. On other systems it cannot be said.
pub proof fn bundle_holds_its_binary(dir: Seq<char>, stem: Seq<char>, ext: Seq<char>)
    requires
        stem.len() > 0,
        ext.len() > 0,
        crate::daemon::paths::is_plain_name(stem.push('.') + ext),
        forall|i: int| 0 <= i < ext.len() ==> (#[trigger] ext[i]) != '.',
    ensures
        ({
            let path = dir.push('/') + (stem.push('.') + ext);
            bundle_binary(path, Platform::MacOs) matches Ok(b) && b == path + "/Contents/MacOS/"@
                + stem
        }),
        forall|path: Seq<char>| (#[trigger] bundle_binary(path, Platform::Linux)) is Err,
        forall|path: Seq<char>| (#[trigger] bundle_binary(path, Platform::Windows)) is Err,
{
    let name = stem.push('.') + ext;
    let path = dir.push('/') + name;
    crate::daemon::paths::extension_stands_behind_the_last_dot(dir, stem, ext, Platform::MacOs);
    crate::daemon::paths::file_is_named_last(dir, name, Platform::MacOs, 'C', '/');
    assert(name.take(name.len() - ext.len() - 1) == stem);
    assert(path.last() == ext[ext.len() - 1]);
    assert(ext[ext.len() - 1] != '/') by {
        let n = name.len() - 1;
        assert(name[n] == ext[ext.len() - 1]);
        assert(name[n] != '/');
    }
    reveal_strlit("/");
    reveal_strlit("Contents/MacOS/");
    reveal_strlit("/Contents/MacOS/");
    assert("/Contents/MacOS/"@ == "/"@ + "Contents/MacOS/"@);
    let (a, b) = ("/"@, "Contents/MacOS/"@);
    assert(path + a + (b + stem) == path + (a + b) + stem);
}

/// A CLAP plugin is known by the name that it describes itself with, else by its file's.
pub proof fn described_name_comes_first(n: Seq<char>, path: Seq<char>, p: Platform)
    ensures
        clap_name(Some(n), path, p) == n,
        file_name(path, p) matches Some(f) ==> clap_name(None, path, p) == f,
        file_name(path, p) is None ==> clap_name(None, path, p) == "unknown"@,
{
}

/// What ends a loading names the call that failed.
pub proof fn failures_name_the_call(l: Vst3LoadView, path: Seq<char>, code: i32, why: String)
    ensures
        ({
            let failed = vst3_error(l, path, CallResult::Code(code));
            let broken = vst3_error(l, path, CallResult::Broken(why));
            let absent = vst3_error(l, path, CallResult::Absent);
            let said = signed_decimal(code as int);
            &&& l.step is Open ==> broken == Some("dlopen "@ + path + ": "@ + why@)
            &&& l.step is Factory ==> broken == Some("GetPluginFactory missing: "@ + why@)
            &&& l.step is Factory ==> absent == Some("GetPluginFactory returned null"@)
            &&& l.step is Processor ==> absent == Some("component does not expose IAudioProcessor"@)
            &&& code != 0 ==> {
                &&& l.step is Component ==> failed == Some(
                    "createInstance(IComponent) failed: tresult="@ + said,
                )
                &&& l.step is Initialize ==> failed == Some(
                    "IComponent::initialize failed: tresult="@ + said,
                )
                &&& l.step is Buses ==> failed == Some(
                    "setBusArrangements stereo,stereo failed: tresult="@ + said,
                )
                &&& l.step is Setup ==> failed == Some("setupProcessing failed: tresult="@ + said)
                &&& l.step is InputBus ==> failed == Some(
                    "activateBus(input 0) failed: tresult="@ + said,
                )
                &&& l.step is OutputBus ==> failed == Some(
                    "activateBus(output 0) failed: tresult="@ + said,
                )
                &&& l.step is Activate ==> failed == Some("setActive(true) failed: tresult="@ + said)
                &&& l.step is Process ==> failed == Some(
                    "setProcessing(true) failed: tresult="@ + said,
                )
            }
        }),
        clap_error(ClapStep::Open, CallResult::Broken(why)) == Some(
            "clack PluginEntry::load: "@ + why@,
        ),
        clap_error(ClapStep::Factory, CallResult::Absent) == Some(
            "plugin entry has no plugin factory"@,
        ),
        clap_error(ClapStep::Descriptor, CallResult::Absent) == Some(
            "plugin entry exposes zero plugins"@,
        ),
        clap_error(ClapStep::Identifier, CallResult::Absent) == Some(
            "plugin descriptor has null id"@,
        ),
        clap_error(ClapStep::CString, CallResult::Broken(why)) == Some(
            "plugin id had interior NUL: "@ + why@,
        ),
        clap_error(ClapStep::Instance, CallResult::Broken(why)) == Some(
            "PluginInstance::new: "@ + why@,
        ),
        clap_error(ClapStep::Activate, CallResult::Broken(why)) == Some(
            "PluginInstance::activate: "@ + why@,
        ),
        clap_error(ClapStep::Process, CallResult::Broken(why)) == Some(
            "start_processing: "@ + why@,
        ),
{
}

} // verus!
