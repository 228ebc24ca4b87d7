//! Laws of the plugins: how they are found, loaded, lent out and told of changes.
use crate::daemon::host::{
    format_is_told_by_the_extension, matches_plugin_ext, texts, HostError, HostErrorView,
    LoadedPlugin, PluginFormat, PluginHost,
};
use crate::daemon::instrument::PluginId;
use crate::daemon::ipc::PluginParam;
use crate::daemon::params::{
    list_params, params_to_query, params_view, trim_nuls, ChangesView, ParamChanges, Point,
    ReportedParam,
};
use crate::daemon::paths::{extension_is, name_of, Platform};
use crate::daemon::plugin::{
    binary_missing, clap_plugin_name, clap_report, failure_because, load_wf, next_main_id,
    resolve_bundle_binary, vst3_after, vst3_error, CallResult, ClapStep, Vst3Load,
};
use crate::text::decimal;
use vstd::prelude::*;

verus! {

/// A plugin's format is told by its extension, in either case: where the path exists, it is
/// taken for a VST3 or a CLAP plugin, and anything else is refused by its path.
pub proof fn format_follows_the_extension(
    path: &str,
    vst3: &str,
    clap: &str,
    p: Platform,
    is_vst3: bool,
    is_clap: bool,
    known: bool,
    exists: bool,
    r: Result<PluginFormat, HostError>,
)
    requires
        vst3@ == "vst3"@,
        clap@ == "clap"@,
        call_ensures(extension_is, (path, vst3, p), is_vst3),
        call_ensures(extension_is, (path, clap, p), is_clap),
        call_ensures(matches_plugin_ext, (path, p), known),
        call_ensures(PluginHost::<u8>::backend_for, (path, exists, p), r),
    ensures
        known <==> is_vst3 || is_clap,
        r is Ok <==> exists && known,
        r matches Ok(f) ==> (f is Vst3 <==> is_vst3) && (f is Clap <==> is_clap),
        r matches Err(e) ==> e@ == (if exists {
            HostErrorView::UnsupportedFormat(path@)
        } else {
            HostErrorView::NotFound(path@)
        }),
{
    format_is_told_by_the_extension(path@, p);
}

/// A scan gives the paths of plugins among those that it was given, each as often as it was
/// there.
pub proof fn scan_gives_the_plugins<I>(
    host: PluginHost<I>,
    entries: Vec<String>,
    p: Platform,
    r: Vec<String>,
)
    requires
        call_ensures(PluginHost::scan, (&host, entries, p), r),
    ensures
        texts(r@).to_multiset() == texts(entries@).filter(
            |x: Seq<char>|
                crate::daemon::paths::has_extension(x, "vst3"@, p)
                    || crate::daemon::paths::has_extension(x, "clap"@, p),
        ).to_multiset(),
{
    crate::daemon::host::scan_finds_every_plugin(texts(entries@), p);
}

/// A plugin that was built is loaded under the next number, which is not zero, and keeps its
/// name and its instrument; the others stay as they are. One that was not built, or cannot
/// be one, changes nothing.
pub proof fn built_plugin_is_loaded<I>(
    path: &str,
    exists: bool,
    p: Platform,
    known: bool,
    built: Result<(I, String, Vec<PluginParam>), HostError>,
    r: Result<LoadedPlugin, HostError>,
    other: PluginId,
)
    requires
        call_ensures(matches_plugin_ext, (path, p), known),
    ensures
        forall|h: &mut PluginHost<I>| #[trigger]
            call_ensures(PluginHost::load, (h, path, exists, p, built), r) ==> {
                let (a, b) = (*h, *final(h));
                &&& r is Ok <==> exists && known && built is Ok
                &&& r matches Ok(x) ==> x.id == a.next_id && x.name == built->Ok_0.1 && x.params
                    == built->Ok_0.2 && b.is_loaded(x.id) && b.instrument_of(x.id) == Some(
                    built->Ok_0.0,
                ) && b.next_id != 0 && b.next_id != a.next_id && (other != x.id ==> b.is_loaded(
                    other,
                ) == a.is_loaded(other) && b.instrument_of(other) == a.instrument_of(other))
                &&& r is Err ==> b == a
            },
{
    assert forall|h: &mut PluginHost<I>| #[trigger]
        call_ensures(PluginHost::load, (h, path, exists, p, built), r) && r is Ok implies {
        let (a, b) = (*h, *final(h));
        b.next_id != 0 && b.next_id != a.next_id
    } by {
        crate::daemon::host::next_plugin_gets_another_number((*h).next_id);
    }
}

/// An instrument is lent out once, and is there again when it comes back.
pub proof fn instrument_is_lent_and_returned<I>(id: PluginId, inst: I, r: Option<I>)
    ensures
        forall|h: &mut PluginHost<I>| #[trigger]
            call_ensures(PluginHost::take_instrument, (h, id), r) ==> {
                let (a, b) = (*h, *final(h));
                &&& r == a.instrument_of(id)
                &&& b.instrument_of(id) is None
                &&& forall|j: PluginId| #[trigger] b.is_loaded(j) == a.is_loaded(j)
                &&& forall|j: PluginId|
                    j != id ==> #[trigger] b.instrument_of(j) == a.instrument_of(j)
            },
        forall|h: &mut PluginHost<I>| #[trigger]
            call_ensures(PluginHost::return_instrument, (h, id, inst), ()) ==> {
                let (a, b) = (*h, *final(h));
                &&& a.is_loaded(id) ==> b.instrument_of(id) == Some(inst)
                &&& forall|j: PluginId| #[trigger] b.is_loaded(j) == a.is_loaded(j)
                &&& forall|j: PluginId|
                    j != id ==> #[trigger] b.instrument_of(j) == a.instrument_of(j)
            },
{
}

/// Unloading a plugin forgets it and no other; one that is not loaded is said to be missing.
pub proof fn unloaded_plugin_is_gone<I>(id: PluginId, r: Result<(), HostError>)
    ensures
        forall|h: &mut PluginHost<I>| #[trigger]
            call_ensures(PluginHost::unload, (h, id), r) ==> {
                let (a, b) = (*h, *final(h));
                &&& r is Ok <==> a.is_loaded(id)
                &&& r matches Err(e) ==> e@ == HostErrorView::NotFound("id "@ + decimal(id as nat))
                &&& !b.is_loaded(id)
                &&& forall|j: PluginId| j != id ==> #[trigger] b.is_loaded(j) == a.is_loaded(j)
                &&& forall|j: PluginId|
                    j != id ==> #[trigger] b.instrument_of(j) == a.instrument_of(j)
                &&& b.next_id == a.next_id
            },
{
}

/// What went wrong is said with what it was about.
pub proof fn errors_are_worded(e: HostError, r: String)
    requires
        call_ensures(HostError::message, (&e,), r),
    ensures
        e matches HostError::NotFound(s) ==> r@ == "plugin not found: "@ + s@,
        e matches HostError::UnsupportedFormat(s) ==> r@ == "unsupported plugin format: "@ + s@,
        e matches HostError::ScanFailed(s) ==> r@ == "plugin scan failed: "@ + s@,
        e matches HostError::LoadFailed(s) ==> r@ == "plugin load failed: "@ + s@,
{
}

/// The parameters of a plugin are asked for one by one, up to 4096 of them.
pub proof fn parameters_are_asked_for(count: i64, r: u32)
    requires
        call_ensures(params_to_query, (count,), r),
    ensures
        r <= 4096,
        0 <= count <= 4096 ==> r == count,
        count < 0 ==> r == 0,
        count > 4096 ==> r == 4096,
{
}

/// One more parameter is listed behind the others, unless it is hidden or was not
/// described, and keeps what was said of it.
pub proof fn parameter_is_listed(
    few: Vec<Option<ReportedParam>>,
    more: Vec<Option<ReportedParam>>,
    x: Option<ReportedParam>,
    a: Vec<PluginParam>,
    b: Vec<PluginParam>,
)
    requires
        more@ == few@.push(x),
        call_ensures(list_params, (few,), a),
        call_ensures(list_params, (more,), b),
    ensures
        few@.len() == 0 ==> a@.len() == 0,
        x is None ==> params_view(b@) == params_view(a@),
        x matches Some(p) ==> p.hidden ==> params_view(b@) == params_view(a@),
        x matches Some(p) ==> !p.hidden ==> {
            let q = params_view(b@).last();
            &&& b@.len() == a@.len() + 1 && params_view(b@).drop_last() == params_view(a@)
            &&& q.id == p.id && q.name == p.name@ && q.units == p.units@
            &&& q.min == p.min && q.max == p.max && q.default == p.default
            &&& q.automatable == p.automatable && q.modulatable == p.modulatable
            &&& q.step_count == p.step_count || (p.step_count < 0 && q.step_count == 0)
        },
{
    crate::daemon::params::described_parameters_are_listed(few@, x);
    assert(few@.push(x) == more@);
    if few@.len() == 0 {
        assert(few@ == Seq::<Option<ReportedParam>>::empty());
    }
    assert(params_view(a@).len() == a@.len() && params_view(b@).len() == b@.len());
}

/// A point of a parameter's queue is added behind the others, as long as there is room, and
/// its place is told.
pub proof fn point_is_added(queue: usize, offset: i32, value: u64, r: Option<usize>)
    ensures
        forall|c: &mut ParamChanges| #[trigger]
            call_ensures(ParamChanges::add_point, (c, queue, offset, value), r) && (*c)@.wf() ==> {
                let (a, b) = ((*c)@, (*final(c))@);
                let q = queue as int;
                &&& r is Some <==> queue < a.queues.len() && a.queues[q].points.len() < 64
                &&& r matches Some(i) ==> i == a.queues[q].points.len() && b.queues[q].points
                    == a.queues[q].points.push(Point { offset, value }) && b.queues[q].param_id
                    == a.queues[q].param_id && (forall|j: int|
                    0 <= j < a.queues.len() && j != q ==> #[trigger] b.queues[j] == a.queues[j])
                &&& b.active == a.active
            },
{
}

/// The numbers of instances follow each other and are never zero.
pub proof fn numbers_follow(id: u64, r: u64)
    requires
        call_ensures(next_main_id, (id,), r),
    ensures
        r != 0,
        r != id,
        id < u64::MAX ==> r == id + 1,
{
}

/// A plugin is called as it describes itself, or else as its file, or else unknown.
pub proof fn plugin_is_called(
    described: Option<String>,
    path: &str,
    p: Platform,
    file: Option<Vec<char>>,
    r: String,
)
    requires
        call_ensures(name_of, (path, p), file),
        call_ensures(clap_plugin_name, (described, path, p), r),
    ensures
        described matches Some(s) ==> r@ == s@,
        described is None ==> r@ == (match file {
            Some(f) => f@,
            None => "unknown"@,
        }),
{
}

/// What a loading ended with is said with the reason, and a missing binary with its path.
pub proof fn failures_are_worded(words: &str, reason: &str, a: HostError, b: HostError)
    requires
        call_ensures(failure_because, (words, reason), a),
        call_ensures(binary_missing, (reason,), b),
    ensures
        a matches HostError::LoadFailed(s) && s@ == words@ + reason@,
        b matches HostError::LoadFailed(s) && s@ == "bundle binary missing at "@ + reason@,
{
}

/// A bundle's binary is looked for inside it, by the bundle's own name without its
/// extension.
pub proof fn binary_is_inside_its_bundle(
    path: &str,
    dir: Seq<char>,
    stem: Seq<char>,
    ext: Seq<char>,
    r: Result<String, HostError>,
)
    requires
        stem.len() > 0,
        ext.len() > 0,
        crate::daemon::paths::is_plain_name(stem.push('.') + ext),
        forall|i: int| 0 <= i < ext.len() ==> (#[trigger] ext[i]) != '.',
        path@ == dir.push('/') + (stem.push('.') + ext),
        call_ensures(resolve_bundle_binary, (path, Platform::MacOs), r),
    ensures
        r matches Ok(b) && b@ == path@ + "/Contents/MacOS/"@ + stem,
{
    crate::daemon::plugin::bundle_holds_its_binary(dir, stem, ext);
}

/// A name loses the zeros at its end and nothing else.
pub proof fn only_zeros_are_trimmed(a: &str, b: &str, c: char, x: String, y: String)
    requires
        b@ == a@.push(c),
        call_ensures(trim_nuls, (a,), x),
        call_ensures(trim_nuls, (b,), y),
    ensures
        c == '\0' ==> y@ == x@,
        c != '\0' ==> y@ == b@,
        a@.len() == 0 ==> x@.len() == 0,
{
    crate::daemon::params::only_zeros_at_the_end_go(a@, c);
    assert(a@.push(c) == b@);
    if a@.len() == 0 {
        assert(a@ == Seq::<char>::empty());
    }
}

/// A change is staged behind the others of its parameter where there is room: the queue that
/// is in use for it gets the point, or a new one is opened with it.
pub proof fn change_is_staged(id: u32, offset: i32, value: u64)
    ensures
        forall|c: &mut ParamChanges| #[trigger]
            call_ensures(ParamChanges::stage, (c, id, offset, value), ()) && (*c)@.wf()
                ==> is_staged((*c)@, (*final(c))@, id, Point { offset, value }),
{
    assert forall|c: &mut ParamChanges| #[trigger]
        call_ensures(ParamChanges::stage, (c, id, offset, value), ())
            && (*c)@.wf() implies is_staged(
        (*c)@,
        (*final(c))@,
        id,
        Point { offset, value },
    ) by {
        let (v, p) = ((*c)@, Point { offset, value });
        crate::daemon::params::staged_change_is_last(v, id, p);
        crate::daemon::params::change_without_room_is_dropped(v, id, p);
    }
}

/// Whether a change was staged, or dropped for want of room.
pub open spec fn is_staged(a: ChangesView, b: ChangesView, id: u32, p: Point) -> bool {
    &&& forall|i: int|
        0 <= i < a.active && (#[trigger] a.queues[i]).param_id != id ==> b.queues[i] == a.queues[i]
    &&& (exists|i: int|
        0 <= i < a.active && (#[trigger] a.queues[i]).param_id == id && a.queues[i].points.len()
            == 64) ==> b == a
    &&& a.active == 64 && (forall|i: int|
        0 <= i < a.active ==> (#[trigger] a.queues[i]).param_id != id) ==> b == a
}

/// The steps of a loading are taken in their order, and a call that failed where it must not
/// ends it; nothing is then forgotten or learnt.
pub proof fn loading_ends_with_a_failed_call(path: &str, x: CallResult, r: Result<(), HostError>)
    ensures
        forall|l: &mut Vst3Load| #[trigger]
            call_ensures(Vst3Load::report, (l, path, x), r) && load_wf((*l)@) ==> {
                let (a, b) = ((*l)@, (*final(l))@);
                &&& r is Err ==> b == a
                &&& r is Err <==> vst3_error(a, path@, x) is Some
                &&& r is Ok && !(a.step is Ready) ==> b == vst3_after(a, x)
            },
{
}

/// The next step of loading a CLAP plugin is the one behind it, unless the call failed.
pub proof fn clap_loading_goes_on(step: ClapStep, x: CallResult, r: Result<ClapStep, HostError>)
    requires
        call_ensures(clap_report, (step, &x), r),
    ensures
        r matches Ok(next) ==> (next is Factory <==> step is Open) && (next is Descriptor
            <==> step is Factory) && (next is Identifier <==> step is Descriptor) && (next is CString
            <==> step is Identifier) && (next is Instance <==> step is CString) && (next is Params
            <==> step is Instance) && (next is Activate <==> step is Params) && (next is Process
            <==> step is Activate) && (next is Ready <==> step is Process || step is Ready),
        r is Err <==> (x is Broken && (step is Open || step is CString || step is Instance
            || step is Activate || step is Process)) || (x is Absent && (step is Factory
            || step is Descriptor || step is Identifier)),
{
    crate::daemon::plugin::clap_loading_leaves_out_no_call(step, x);
}

} // verus!
