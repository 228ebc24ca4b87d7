//! Plugin parameters: their listing, and their changes within a block.
use crate::daemon::audio::AudioCmd;
use crate::daemon::ipc::PluginParam;
use crate::text::{from_utf16_lossy, from_utf8_lossy, text_of, utf16_text};
use vstd::prelude::*;
use vstd::slice::slice_subrange;

verus! {

/// How many parameters of a plugin are listed.
pub const MAX_PARAMS_PER_PLUGIN: u32 = 4096;

/// How many parameters can change within a block.
pub const VST3_MAX_PARAM_QUEUES: usize = 64;

/// How often a parameter can change within a block.
pub const VST3_MAX_POINTS_PER_QUEUE: usize = 64;

/// A parameter as a plugin reports it. Its values are the bits of singles.
#[derive(Debug)]
pub struct ReportedParam {
    pub id: u32,
    pub name: String,
    pub units: String,
    pub min: u32,
    pub max: u32,
    pub default: u32,
    pub step_count: i32,
    pub hidden: bool,
    pub automatable: bool,
    pub modulatable: bool,
}

/// What is known of a parameter.
#[verifier::ext_equal]
pub struct ParamView {
    pub id: u32,
    pub name: Seq<char>,
    pub min: u32,
    pub max: u32,
    pub default: u32,
    pub units: Seq<char>,
    pub step_count: u32,
    pub automatable: bool,
    pub modulatable: bool,
}

impl View for PluginParam {
    type V = ParamView;

    open spec fn view(&self) -> ParamView {
        ParamView {
            id: self.id,
            name: self.name@,
            min: self.min,
            max: self.max,
            default: self.default,
            units: self.units@,
            step_count: self.step_count,
            automatable: self.automatable,
            modulatable: self.modulatable,
        }
    }
}

/// A reported parameter as it is listed. A negative number of steps is none.
pub open spec fn listed(p: ReportedParam) -> ParamView {
    ParamView {
        id: p.id,
        name: p.name@,
        min: p.min,
        max: p.max,
        default: p.default,
        units: p.units@,
        step_count: if p.step_count < 0 {
            0
        } else {
            p.step_count as u32
        },
        automatable: p.automatable,
        modulatable: p.modulatable,
    }
}

/// The parameters that are listed: those that the plugin describes and does not
/// hide, in its order.
pub open spec fn listed_params(reports: Seq<Option<ReportedParam>>) -> Seq<ParamView>
    decreases reports.len(),
{
    if reports.len() == 0 {
        Seq::empty()
    } else {
        let rest = listed_params(reports.drop_last());
        match reports.last() {
            Some(p) => if p.hidden {
                rest
            } else {
                rest.push(listed(p))
            },
            None => rest,
        }
    }
}

/// The contents of some parameters.
pub open spec fn params_view(ps: Seq<PluginParam>) -> Seq<ParamView> {
    ps.map_values(|p: PluginParam| p@)
}

/// How many parameters to ask a plugin for that counts `count` of them.
pub fn params_to_query(count: i64) -> (r: u32)
    ensures
        r as int == (if count < 0 {
            0
        } else if count > MAX_PARAMS_PER_PLUGIN {
            MAX_PARAMS_PER_PLUGIN as int
        } else {
            count as int
        }),
{
    if count < 0 {
        0
    } else if count > MAX_PARAMS_PER_PLUGIN as i64 {
        MAX_PARAMS_PER_PLUGIN
    } else {
        count as u32
    }
}

/// Lists what a plugin reported about its parameters; `None` stands for one that it
/// did not describe.
pub fn list_params(reports: Vec<Option<ReportedParam>>) -> (r: Vec<PluginParam>)
    ensures
        params_view(r@) == listed_params(reports@),
{
    let mut rest = reports;
    let ghost all = rest@;
    let mut out: Vec<PluginParam> = Vec::new();
    assert(params_view(out@) == Seq::<ParamView>::empty());
    assert(all.take(0) == Seq::<Option<ReportedParam>>::empty());
    assert(all.skip(0) == all);
    while rest.len() > 0
        invariant
            rest@.len() <= all.len(),
            rest@ == all.skip(all.len() - rest@.len()),
            params_view(out@) == listed_params(all.take(all.len() - rest@.len())),
        decreases rest@.len(),
    {
        let ghost n = all.len() - rest@.len();
        let report = rest.remove(0);
        proof {
            assert(all.take(n + 1).drop_last() == all.take(n));
            assert(all.take(n + 1).last() == report);
            assert(all.skip(n).remove(0) == all.skip(n + 1));
        }
        if let Some(p) = report {
            if !p.hidden {
                let ghost before = out@;
                let param = PluginParam {
                    id: p.id,
                    name: p.name,
                    min: p.min,
                    max: p.max,
                    default: p.default,
                    units: p.units,
                    step_count: if p.step_count < 0 {
                        0
                    } else {
                        p.step_count as u32
                    },
                    automatable: p.automatable,
                    modulatable: p.modulatable,
                };
                out.push(param);
                assert(params_view(out@) == params_view(before).push(param@));
            }
        }
    }
    assert(all.take(all.len() as int) == all);
    out
}

/// What stands before the first zero.
pub open spec fn before_nul(s: Seq<u16>) -> Seq<u16>
    decreases s.len(),
{
    if s.len() == 0 || s[0] == 0 {
        Seq::empty()
    } else {
        seq![s[0]] + before_nul(s.drop_first())
    }
}

proof fn lemma_before_nul(s: Seq<u16>, n: int)
    requires
        0 <= n <= s.len(),
        forall|i: int| 0 <= i < n ==> (#[trigger] s[i]) != 0,
        n < s.len() ==> s[n] == 0,
    ensures
        before_nul(s) == s.take(n),
    decreases s.len(),
{
    if n > 0 {
        let t = s.drop_first();
        assert forall|i: int| 0 <= i < n - 1 implies (#[trigger] t[i]) != 0 by {
            assert(t[i] == s[i + 1]);
        }
        lemma_before_nul(t, n - 1);
        assert(seq![s[0]] + t.take(n - 1) == s.take(n));
    } else {
        assert(s.take(0) == Seq::<u16>::empty());
    }
}

/// Reads a text of UTF-16 units that a zero ends.
pub fn string128_to_string(s: &[u16]) -> (r: String)
    ensures
        r@ == utf16_text(before_nul(s@)),
{
    let mut n: usize = 0;
    while n < s.len() && s[n] != 0
        invariant
            n <= s@.len(),
            forall|i: int| 0 <= i < n ==> (#[trigger] s@[i]) != 0,
        decreases s@.len() - n,
    {
        n = n + 1;
    }
    proof {
        lemma_before_nul(s@, n as int);
    }
    let units = slice_subrange(s, 0, n);
    assert(units@ == before_nul(s@));
    from_utf16_lossy(units)
}

/// A text without the zeros at its end.
pub open spec fn without_nuls(s: Seq<char>) -> Seq<char>
    decreases s.len(),
{
    if s.len() > 0 && s.last() == '\0' {
        without_nuls(s.drop_last())
    } else {
        s
    }
}

/// Drops the zeros at the end of a decoded name.
pub fn trim_nuls(s: &str) -> (r: String)
    ensures
        r@ == without_nuls(s@),
{
    let v = crate::text::chars_of(s);
    let mut n: usize = v.len();
    assert(v@.take(n as int) == v@);
    while n > 0 && v[n - 1] == '\0'
        invariant
            n <= v@.len(),
            without_nuls(v@) == without_nuls(v@.take(n as int)),
        decreases n,
    {
        assert(v@.take(n as int).drop_last() == v@.take(n - 1));
        n = n - 1;
    }
    let kept = crate::text::slice_of(&v, 0, n);
    assert(kept@ == v@.take(n as int));
    crate::text::string_of(&kept)
}

/// Reads a parameter's name from bytes, without the zeros at its end.
pub fn clap_param_name(bytes: &[u8]) -> (r: String)
    ensures
        r@ == without_nuls(text_of(bytes@)),
{
    let s = from_utf8_lossy(bytes);
    trim_nuls(s.as_str())
}

/// A change of a parameter: the frame and the bits of a double.
#[derive(Debug, Clone, Copy, PartialEq, Eq, Structural)]
pub struct Point {
    pub offset: i32,
    pub value: u64,
}

/// The changes of one parameter within a block.
#[derive(Debug)]
pub struct ParamQueue {
    pub param_id: u32,
    pub points: Vec<Point>,
}

/// The changes of one parameter.
#[verifier::ext_equal]
pub struct QueueView {
    pub param_id: u32,
    pub points: Seq<Point>,
}

impl View for ParamQueue {
    type V = QueueView;

    open spec fn view(&self) -> QueueView {
        QueueView { param_id: self.param_id, points: self.points@ }
    }
}

/// The contents of some queues.
pub open spec fn queues_view(qs: Seq<ParamQueue>) -> Seq<QueueView> {
    qs.map_values(|q: ParamQueue| q@)
}

/// The position of the first queue from `i` on that belongs to a parameter.
pub open spec fn queue_for(qs: Seq<QueueView>, id: u32, i: int) -> Option<int>
    decreases qs.len() - i,
{
    if i >= qs.len() {
        None
    } else if qs[i].param_id == id {
        Some(i)
    } else {
        queue_for(qs, id, i + 1)
    }
}

/// A queue with one more point, unless it is full.
pub open spec fn point_added(q: QueueView, p: Point) -> QueueView {
    if q.points.len() >= VST3_MAX_POINTS_PER_QUEUE {
        q
    } else {
        QueueView { param_id: q.param_id, points: q.points.push(p) }
    }
}

/// The parameter changes of one block: all queues that there are, and how many of them
/// are in use, from the first one on. A plugin may keep hold of a queue that is not in
/// use, and add points to it.
#[verifier::ext_equal]
pub struct ChangesView {
    pub queues: Seq<QueueView>,
    pub active: nat,
}

impl ChangesView {
    /// The queues in use.
    pub open spec fn used(self) -> Seq<QueueView> {
        self.queues.take(self.active as int)
    }

    /// Whether all queues are there, none holds more points than it may, no parameter has
    /// two queues in use, and the queues out of use belong to parameter 0.
    pub open spec fn wf(self) -> bool {
        &&& self.queues.len() == VST3_MAX_PARAM_QUEUES
        &&& self.active <= VST3_MAX_PARAM_QUEUES
        &&& forall|i: int|
            0 <= i < self.queues.len() ==> (#[trigger] self.queues[i]).points.len()
                <= VST3_MAX_POINTS_PER_QUEUE
        &&& forall|i: int, j: int|
            0 <= i < j < self.active ==> (#[trigger] self.queues[i]).param_id != (
            #[trigger] self.queues[j]).param_id
        &&& forall|i: int|
            self.active <= i < self.queues.len() ==> (#[trigger] self.queues[i]).param_id == 0
    }
}

/// A queue that belongs to a parameter and holds nothing.
pub open spec fn empty_queue(id: u32) -> QueueView {
    QueueView { param_id: id, points: Seq::empty() }
}

/// The queues before anything was done with them.
pub open spec fn no_changes() -> ChangesView {
    ChangesView {
        queues: Seq::new(VST3_MAX_PARAM_QUEUES as nat, |i: int| empty_queue(0)),
        active: 0,
    }
}

/// The changes after they were forgotten: the queues in use are emptied and go out of
/// use.
pub open spec fn cleared(v: ChangesView) -> ChangesView {
    ChangesView {
        queues: Seq::new(
            v.queues.len(),
            |i: int|
                if i < v.active {
                    empty_queue(0)
                } else {
                    v.queues[i]
                },
        ),
        active: 0,
    }
}

/// The changes with a queue for a parameter, unless there is no room for it. It is
/// empty where it was not in use.
pub open spec fn queue_opened(v: ChangesView, id: u32) -> ChangesView {
    if queue_for(v.used(), id, 0) is Some || v.active >= VST3_MAX_PARAM_QUEUES {
        v
    } else {
        ChangesView {
            queues: v.queues.update(v.active as int, empty_queue(id)),
            active: v.active + 1,
        }
    }
}

/// The changes with one more point in a queue, in use or not.
pub open spec fn with_point(v: ChangesView, queue: int, p: Point) -> ChangesView {
    ChangesView {
        queues: v.queues.update(queue, point_added(v.queues[queue], p)),
        active: v.active,
    }
}

/// The changes after one was staged: it goes to its parameter's queue, which is opened
/// where there is none, and is dropped where there is no room.
pub open spec fn staged(v: ChangesView, id: u32, p: Point) -> ChangesView {
    let opened = queue_opened(v, id);
    match queue_for(opened.used(), id, 0) {
        Some(i) => with_point(opened, i, p),
        None => opened,
    }
}

proof fn lemma_queue_for(qs: Seq<QueueView>, id: u32, i: int)
    requires
        0 <= i,
    ensures
        match queue_for(qs, id, i) {
            Some(k) => i <= k < qs.len() && qs[k].param_id == id,
            None => forall|k: int| i <= k < qs.len() ==> (#[trigger] qs[k]).param_id != id,
        },
    decreases qs.len() - i,
{
    if i < qs.len() && qs[i].param_id != id {
        lemma_queue_for(qs, id, i + 1);
    }
}

proof fn lemma_queue_for_pushed(qs: Seq<QueueView>, q: QueueView, i: int)
    requires
        0 <= i <= qs.len(),
        queue_for(qs, q.param_id, i) is None,
    ensures
        queue_for(qs.push(q), q.param_id, i) == Some(qs.len() as int),
    decreases qs.len() - i,
{
    if i < qs.len() {
        assert(qs.push(q)[i] == qs[i]);
        lemma_queue_for_pushed(qs, q, i + 1);
    }
}

/// The parameter changes of one block, as a plugin reads them. The queues are made
/// once and used again for every block.
#[derive(Debug)]
pub struct ParamChanges {
    queues: Vec<ParamQueue>,
    active: usize,
}

impl View for ParamChanges {
    type V = ChangesView;

    closed spec fn view(&self) -> ChangesView {
        ChangesView { queues: queues_view(self.queues@), active: self.active as nat }
    }
}

impl ParamChanges {
    pub open spec fn wf(&self) -> bool {
        self@.wf()
    }

    pub fn new() -> (r: Self)
        ensures
            r.wf(),
            r@ == no_changes(),
    {
        let mut queues: Vec<ParamQueue> = Vec::with_capacity(VST3_MAX_PARAM_QUEUES);
        for i in 0..VST3_MAX_PARAM_QUEUES
            invariant
                queues@.len() == i,
                forall|k: int| 0 <= k < i ==> (#[trigger] queues@[k])@ == empty_queue(0),
        {
            let q = ParamQueue {
                param_id: 0,
                points: Vec::with_capacity(VST3_MAX_POINTS_PER_QUEUE),
            };
            assert(q@ == empty_queue(0));
            queues.push(q);
        }
        let r = ParamChanges { queues, active: 0 };
        assert(r@ == no_changes());
        r
    }

    /// Forgets every change.
    pub fn clear(&mut self)
        requires
            old(self).wf(),
        ensures
            final(self).wf(),
            final(self)@ == cleared(old(self)@),
    {
        let ghost before = self.queues@;
        let n = self.active;
        for i in 0..n
            invariant
                before == old(self).queues@,
                n <= before.len(),
                self.queues@.len() == before.len(),
                forall|k: int| 0 <= k < i ==> (#[trigger] self.queues@[k])@ == empty_queue(0),
                forall|k: int| i <= k < before.len() ==> (#[trigger] self.queues@[k]) == before[k],
        {
            self.queues[i].param_id = 0;
            self.queues[i].points.clear();
            assert(self.queues@[i as int]@ == empty_queue(0));
        }
        self.active = 0;
        assert(self@ == cleared(old(self)@)) by {
            assert forall|k: int| 0 <= k < before.len() implies self@.queues[k] == cleared(
                old(self)@,
            ).queues[k] by {
                assert(self@.queues[k] == self.queues@[k]@);
                assert(old(self)@.queues[k] == before[k]@);
            }
        }
    }

    /// The number of parameters that change.
    pub fn parameter_count(&self) -> (r: usize)
        requires
            self.wf(),
        ensures
            r as nat == self@.active,
    {
        self.active
    }

    /// The parameter of a queue, where there is that queue.
    pub fn parameter_id(&self, queue: usize) -> (r: Option<u32>)
        requires
            self.wf(),
        ensures
            r == (if queue < self@.queues.len() {
                Some(self@.queues[queue as int].param_id)
            } else {
                None
            }),
    {
        if queue < self.queues.len() {
            Some(self.queues[queue].param_id)
        } else {
            None
        }
    }

    /// The number of points in a queue; 0 where there is no such queue.
    pub fn point_count(&self, queue: usize) -> (r: usize)
        requires
            self.wf(),
        ensures
            r as nat == (if queue < self@.queues.len() {
                self@.queues[queue as int].points.len()
            } else {
                0
            }),
    {
        if queue < self.queues.len() {
            self.queues[queue].points.len()
        } else {
            0
        }
    }

    /// A point of a queue, where there is one with that number.
    pub fn point(&self, queue: usize, index: i32) -> (r: Option<Point>)
        requires
            self.wf(),
        ensures
            r == (if queue < self@.queues.len() && 0 <= index
                < self@.queues[queue as int].points.len() {
                Some(self@.queues[queue as int].points[index as int])
            } else {
                None
            }),
    {
        if queue < self.queues.len() && index >= 0 && (index as usize)
            < self.queues[queue].points.len() {
            Some(self.queues[queue].points[index as usize])
        } else {
            None
        }
    }

    /// The position of a parameter's queue.
    fn find(&self, id: u32) -> (r: Option<usize>)
        requires
            self.wf(),
        ensures
            match r {
                Some(i) => queue_for(self@.used(), id, 0) == Some(i as int) && i < self@.active,
                None => queue_for(self@.used(), id, 0) is None,
            },
    {
        let mut i: usize = 0;
        while i < self.active
            invariant
                self.wf(),
                i <= self.active,
                queue_for(self@.used(), id, 0) == queue_for(self@.used(), id, i as int),
            decreases self.active - i,
        {
            assert(self@.used()[i as int] == self.queues@[i as int]@);
            if self.queues[i].param_id == id {
                return Some(i);
            }
            i = i + 1;
        }
        None
    }

    /// The queue of a parameter, opened where there is none; nothing where there is
    /// no room for it.
    pub fn add_parameter(&mut self, id: u32) -> (r: Option<usize>)
        requires
            old(self).wf(),
        ensures
            final(self).wf(),
            final(self)@ == queue_opened(old(self)@, id),
            match r {
                Some(i) => queue_for(final(self)@.used(), id, 0) == Some(i as int) && i
                    < final(self)@.active,
                None => queue_for(final(self)@.used(), id, 0) is None && old(self)@.active
                    >= VST3_MAX_PARAM_QUEUES,
            },
    {
        let ghost before = self@;
        proof {
            lemma_queue_for(before.used(), id, 0);
        }
        match self.find(id) {
            Some(i) => Some(i),
            None => {
                let i: usize = self.active;
                if i >= VST3_MAX_PARAM_QUEUES {
                    return None;
                }
                self.queues[i].param_id = id;
                self.queues[i].points.clear();
                self.active = i + 1;
                proof {
                    assert(self@ == queue_opened(before, id)) by {
                        assert forall|k: int| 0 <= k < before.queues.len() implies self@.queues[k]
                            == queue_opened(before, id).queues[k] by {
                            assert(before.queues[k] == old(self).queues@[k]@);
                            assert(self@.queues[k] == self.queues@[k]@);
                        }
                    }
                    lemma_opened(before, id);
                }
                Some(i)
            },
        }
    }

    /// Adds a point to a queue. Gives its number; nothing where there is no such
    /// queue or it is full.
    pub fn add_point(&mut self, queue: usize, offset: i32, value: u64) -> (r: Option<usize>)
        requires
            old(self).wf(),
        ensures
            final(self).wf(),
            final(self)@ == (if queue < old(self)@.queues.len() {
                with_point(old(self)@, queue as int, Point { offset, value })
            } else {
                old(self)@
            }),
            r == (if queue < old(self)@.queues.len() && old(
                self,
            )@.queues[queue as int].points.len() < VST3_MAX_POINTS_PER_QUEUE {
                Some(old(self)@.queues[queue as int].points.len() as usize)
            } else {
                None
            }),
    {
        if queue >= self.queues.len() {
            return None;
        }
        let ghost after = with_point(old(self)@, queue as int, Point { offset, value });
        assert(self@.queues[queue as int] == self.queues@[queue as int]@);
        let n = self.queues[queue].points.len();
        if n >= VST3_MAX_POINTS_PER_QUEUE {
            assert(self@ == after);
            return None;
        }
        self.queues[queue].points.push(Point { offset, value });
        assert(self@ == after) by {
            assert forall|k: int| 0 <= k < after.queues.len() implies self@.queues[k]
                == after.queues[k] by {
                assert(old(self)@.queues[k] == old(self).queues@[k]@);
                assert(self@.queues[k] == self.queues@[k]@);
            }
        }
        Some(n)
    }

    /// Stages a change. It is dropped where there is no room for it.
    pub fn stage(&mut self, param_id: u32, sample_offset: i32, value: u64)
        requires
            old(self).wf(),
        ensures
            final(self).wf(),
            final(self)@ == staged(
                old(self)@,
                param_id,
                Point { offset: sample_offset, value },
            ),
    {
        match self.add_parameter(param_id) {
            Some(i) => {
                self.add_point(i, sample_offset, value);
            },
            None => {},
        }
    }
}

proof fn lemma_opened(v: ChangesView, id: u32)
    requires
        v.wf(),
        queue_for(v.used(), id, 0) is None,
        v.active < VST3_MAX_PARAM_QUEUES,
    ensures
        queue_opened(v, id).wf(),
        queue_for(queue_opened(v, id).used(), id, 0) == Some(v.active as int),
{
    let w = queue_opened(v, id);
    lemma_queue_for(v.used(), id, 0);
    assert(w.used() == v.used().push(empty_queue(id)));
    lemma_queue_for_pushed(v.used(), empty_queue(id), 0);
    assert forall|i: int, j: int| 0 <= i < j < w.active implies (#[trigger] w.queues[i]).param_id
        != (#[trigger] w.queues[j]).param_id by {
        assert(v.used()[i] == v.queues[i]);
    }
}

/// Staging changes one parameter's queue alone, and as long as there is room the
/// change becomes its last point.
pub proof fn staged_change_is_last(v: ChangesView, id: u32, p: Point)
    requires
        v.wf(),
    ensures
        staged(v, id, p).wf(),
        forall|i: int|
            0 <= i < v.active && (#[trigger] v.queues[i]).param_id != id ==> staged(
                v,
                id,
                p,
            ).queues[i] == v.queues[i],
        queue_for(v.used(), id, 0) matches Some(i) ==> v.queues[i].points.len()
            < VST3_MAX_POINTS_PER_QUEUE ==> staged(v, id, p).queues[i].points
            == v.queues[i].points.push(p),
        queue_for(v.used(), id, 0) is None && v.active < VST3_MAX_PARAM_QUEUES ==> staged(
            v,
            id,
            p,
        ).used() == v.used().push(QueueView { param_id: id, points: seq![p] }),
{
    lemma_queue_for(v.used(), id, 0);
    let opened = queue_opened(v, id);
    if queue_for(v.used(), id, 0) is None && v.active < VST3_MAX_PARAM_QUEUES {
        lemma_opened(v, id);
        assert(Seq::<Point>::empty().push(p) == seq![p]);
        assert(staged(v, id, p).used() == v.used().push(
            QueueView { param_id: id, points: seq![p] },
        ));
    }
    lemma_queue_for(opened.used(), id, 0);
}

/// After the changes were forgotten no parameter changes, and what is staged then comes
/// first and alone.
pub proof fn cleared_changes_are_gone(v: ChangesView, id: u32, p: Point)
    requires
        v.wf(),
    ensures
        cleared(v).wf(),
        cleared(v).used() == Seq::<QueueView>::empty(),
        staged(cleared(v), id, p).used() == seq![QueueView { param_id: id, points: seq![p] }],
{
    let w = cleared(v);
    assert(w.used() == Seq::<QueueView>::empty());
    staged_change_is_last(w, id, p);
    assert(w.used().push(QueueView { param_id: id, points: seq![p] })
        == seq![QueueView { param_id: id, points: seq![p] }]);
}

/// The parameter changes among the commands of a block: offset, parameter and value.
pub open spec fn param_sets(events: Seq<(u32, AudioCmd)>) -> Seq<(u32, u32, u32)>
    decreases events.len(),
{
    if events.len() == 0 {
        Seq::empty()
    } else {
        let rest = param_sets(events.drop_last());
        match events.last().1 {
            AudioCmd::ParamSet { param_id, value } => rest.push(
                (events.last().0, param_id, value),
            ),
            _ => rest,
        }
    }
}

/// Puts the parameter changes among the commands of a block into `out`, in order, each
/// with its offset, its parameter and the bits of its value.
pub fn stage_vst3_events(events: &[(u32, AudioCmd)], out: &mut Vec<(u32, u32, u32)>)
    ensures
        final(out)@ == param_sets(events@),
{
    out.clear();
    assert(events@.take(0) == Seq::<(u32, AudioCmd)>::empty());
    for i in 0..events.len()
        invariant
            out@ == param_sets(events@.take(i as int)),
    {
        let (offset, cmd) = events[i];
        assert(events@.take(i + 1).drop_last() == events@.take(i as int));
        match cmd {
            AudioCmd::ParamSet { param_id, value } => {
                out.push((offset, param_id, value));
            },
            _ => {},
        }
    }
    assert(events@.take(events@.len() as int) == events@);
}

/// A plugin's parameters are listed as it reports them, in its order: all that it
/// describes and does not hide. A negative number of steps counts as none.
pub proof fn described_parameters_are_listed(
    reports: Seq<Option<ReportedParam>>,
    r: Option<ReportedParam>,
)
    ensures
        ({
            let (before, after) = (listed_params(reports), listed_params(reports.push(r)));
            &&& listed_params(Seq::empty()) == Seq::<ParamView>::empty()
            &&& r is None ==> after == before
            &&& r matches Some(p) ==> p.hidden ==> after == before
            &&& r matches Some(p) ==> !p.hidden ==> {
                let q = after.last();
                &&& after.len() == before.len() + 1 && after.drop_last() == before
                &&& q.id == p.id && q.name == p.name@ && q.units == p.units@
                &&& q.min == p.min && q.max == p.max && q.default == p.default
                &&& q.automatable == p.automatable && q.modulatable == p.modulatable
                &&& q.step_count == p.step_count || (p.step_count < 0 && q.step_count == 0)
            }
        }),
{
    assert(reports.push(r).drop_last() == reports);
    let (before, after) = (listed_params(reports), listed_params(reports.push(r)));
    if after.len() > before.len() {
        assert(after.drop_last() == before);
    }
}

/// A text ends before its first zero.
pub proof fn text_ends_before_its_first_zero(s: Seq<u16>, n: int)
    requires
        0 <= n <= s.len(),
        forall|i: int| 0 <= i < n ==> (#[trigger] s[i]) != 0,
        n < s.len() ==> s[n] == 0,
    ensures
        before_nul(s) == s.take(n),
{
    lemma_before_nul(s, n);
}

/// The zeros at the end of a text are taken away, and nothing else.
pub proof fn only_zeros_at_the_end_go(s: Seq<char>, c: char)
    ensures
        without_nuls(Seq::empty()) == Seq::<char>::empty(),
        c == '\0' ==> without_nuls(s.push(c)) == without_nuls(s),
        c != '\0' ==> without_nuls(s.push(c)) == s.push(c),
{
    assert(s.push(c).drop_last() == s);
}

/// The parameter changes among some commands are passed on in their order, each on its
/// frame with its parameter and its value; other commands are passed over.
pub proof fn parameter_changes_are_passed_on(events: Seq<(u32, AudioCmd)>, e: (u32, AudioCmd))
    ensures
        param_sets(Seq::empty()) == Seq::<(u32, u32, u32)>::empty(),
        match e.1 {
            AudioCmd::ParamSet { param_id, value } => param_sets(events.push(e)) == param_sets(
                events,
            ).push((e.0, param_id, value)),
            _ => param_sets(events.push(e)) == param_sets(events),
        },
{
    assert(events.push(e).drop_last() == events);
}

/// A change that there is no room for is dropped and changes nothing: where its
/// parameter's queue is full, or where it has none and all are in use.
pub proof fn change_without_room_is_dropped(v: ChangesView, id: u32, p: Point)
    requires
        v.wf(),
    ensures
        (exists|i: int|
            0 <= i < v.active && (#[trigger] v.queues[i]).param_id == id && v.queues[i].points.len()
                == 64) ==> staged(v, id, p) == v,
        v.active == 64 && (forall|i: int|
            0 <= i < v.active ==> (#[trigger] v.queues[i]).param_id != id) ==> staged(v, id, p)
            == v,
        no_changes().used().len() == 0,
        no_changes().queues.len() == 64,
{
    lemma_queue_for(v.used(), id, 0);
    if exists|i: int|
        0 <= i < v.active && (#[trigger] v.queues[i]).param_id == id && v.queues[i].points.len()
            == 64 {
        let i = choose|i: int|
            0 <= i < v.active && (#[trigger] v.queues[i]).param_id == id && v.queues[i].points.len()
                == 64;
        assert(v.used()[i] == v.queues[i]);
        let k = queue_for(v.used(), id, 0)->Some_0;
        assert(v.used()[k] == v.queues[k]);
        assert(k == i);
        assert(v.queues.update(k, v.queues[k]) == v.queues);
    } else if v.active == 64 && (forall|i: int|
        0 <= i < v.active ==> (#[trigger] v.queues[i]).param_id != id) {
        if let Some(k) = queue_for(v.used(), id, 0) {
            assert(v.used()[k] == v.queues[k]);
        }
    }
}

/// A point is added behind the others of its queue, as long as there are fewer than 64,
/// and changes no other queue.
pub proof fn point_goes_behind_the_others(v: ChangesView, queue: int, p: Point, other: int)
    requires
        v.wf(),
        0 <= queue < v.queues.len(),
        0 <= other < v.queues.len(),
    ensures
        ({
            let w = with_point(v, queue, p);
            &&& v.queues[queue].points.len() < 64 ==> w.queues[queue].points
                == v.queues[queue].points.push(p)
            &&& v.queues[queue].points.len() >= 64 ==> w.queues[queue] == v.queues[queue]
            &&& w.queues[queue].param_id == v.queues[queue].param_id
            &&& other != queue ==> w.queues[other] == v.queues[other]
            &&& w.active == v.active && w.queues.len() == v.queues.len()
        }),
{
}

/// A parameter's queue is the one that is in use for it; a new one is empty and the last.
pub proof fn queue_is_opened_once(v: ChangesView, id: u32)
    requires
        v.wf(),
    ensures
        (exists|i: int| 0 <= i < v.active && (#[trigger] v.queues[i]).param_id == id)
            ==> queue_opened(v, id) == v,
        v.active < 64 && (forall|i: int|
            0 <= i < v.active ==> (#[trigger] v.queues[i]).param_id != id) ==> {
            let w = queue_opened(v, id);
            w.active == v.active + 1 && w.queues[v.active as int].param_id == id
                && w.queues[v.active as int].points.len() == 0
        },
{
    lemma_queue_for(v.used(), id, 0);
    if exists|i: int| 0 <= i < v.active && (#[trigger] v.queues[i]).param_id == id {
        let i = choose|i: int| 0 <= i < v.active && (#[trigger] v.queues[i]).param_id == id;
        assert(v.used()[i] == v.queues[i]);
    } else if let Some(k) = queue_for(v.used(), id, 0) {
        assert(v.used()[k] == v.queues[k]);
    }
}

} // verus!
