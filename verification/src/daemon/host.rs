//! The plugins that the daemon has found and loaded.
use crate::daemon::instrument::{PluginId, BUILTIN_PLUGIN_ID};
use crate::daemon::ipc::PluginParam;
use crate::daemon::paths::{extension_is, has_extension, Platform};
use crate::text::{chars_of, decimal, push_decimal};
use std::collections::HashMap;
use vstd::prelude::*;
use vstd::string::*;

verus! {

/// What can go wrong with plugins.
#[derive(Debug)]
pub enum HostError {
    NotFound(String),
    UnsupportedFormat(String),
    ScanFailed(String),
    LoadFailed(String),
}

/// What an error says.
#[verifier::ext_equal]
pub enum HostErrorView {
    NotFound(Seq<char>),
    UnsupportedFormat(Seq<char>),
    ScanFailed(Seq<char>),
    LoadFailed(Seq<char>),
}

impl View for HostError {
    type V = HostErrorView;

    open spec fn view(&self) -> HostErrorView {
        match *self {
            HostError::NotFound(s) => HostErrorView::NotFound(s@),
            HostError::UnsupportedFormat(s) => HostErrorView::UnsupportedFormat(s@),
            HostError::ScanFailed(s) => HostErrorView::ScanFailed(s@),
            HostError::LoadFailed(s) => HostErrorView::LoadFailed(s@),
        }
    }
}

/// The wording of an error.
pub open spec fn host_error_text(e: HostErrorView) -> Seq<char> {
    match e {
        HostErrorView::NotFound(s) => "plugin not found: "@ + s,
        HostErrorView::UnsupportedFormat(s) => "unsupported plugin format: "@ + s,
        HostErrorView::ScanFailed(s) => "plugin scan failed: "@ + s,
        HostErrorView::LoadFailed(s) => "plugin load failed: "@ + s,
    }
}

impl HostError {
    /// The wording of the error.
    pub fn message(&self) -> (r: String)
        ensures
            r@ == host_error_text(self@),
    {
        let (head, tail): (&str, &String) = match self {
            HostError::NotFound(s) => ("plugin not found: ", s),
            HostError::UnsupportedFormat(s) => ("unsupported plugin format: ", s),
            HostError::ScanFailed(s) => ("plugin scan failed: ", s),
            HostError::LoadFailed(s) => ("plugin load failed: ", s),
        };
        let mut r = head.to_owned();
        r.append(tail.as_str());
        r
    }

    /// The error of a directory that could not be read.
    pub fn scan_failed(dir: &str, detail: &str) -> (r: Self)
        ensures
            r@ == HostErrorView::ScanFailed(dir@ + ": "@ + detail@),
    {
        let mut s = dir.to_owned();
        s.append(": ");
        s.append(detail);
        HostError::ScanFailed(s)
    }
}

/// The plugin interfaces that can be hosted.
#[derive(Debug, Clone, Copy, PartialEq, Eq, Structural)]
pub enum PluginFormat {
    Vst3,
    Clap,
}

/// The format that a path's extension names.
pub open spec fn format_of_path(path: Seq<char>, p: Platform) -> Option<PluginFormat> {
    if has_extension(path, "vst3"@, p) {
        Some(PluginFormat::Vst3)
    } else if has_extension(path, "clap"@, p) {
        Some(PluginFormat::Clap)
    } else {
        None
    }
}

/// Whether a path's extension is that of a plugin.
pub fn matches_plugin_ext(path: &str, platform: Platform) -> (r: bool)
    ensures
        r == format_of_path(path@, platform) is Some,
{
    extension_is(path, "vst3", platform) || extension_is(path, "clap", platform)
}

/// Whether one text is not behind another in the order of their characters.
pub open spec fn text_le(a: Seq<char>, b: Seq<char>) -> bool
    decreases a.len(),
{
    if a.len() == 0 {
        true
    } else if b.len() == 0 {
        false
    } else if a[0] == b[0] {
        text_le(a.drop_first(), b.drop_first())
    } else {
        a[0] < b[0]
    }
}

/// Texts in order with one more put behind all that are not behind it.
pub open spec fn text_inserted(s: Seq<Seq<char>>, x: Seq<char>) -> Seq<Seq<char>>
    decreases s.len(),
{
    if s.len() == 0 || text_le(s.last(), x) {
        s.push(x)
    } else {
        text_inserted(s.drop_last(), x).push(s.last())
    }
}

/// The paths of plugins among some paths, in order.
pub open spec fn plugin_paths(s: Seq<Seq<char>>, p: Platform) -> Seq<Seq<char>>
    decreases s.len(),
{
    if s.len() == 0 {
        s
    } else {
        let rest = plugin_paths(s.drop_last(), p);
        if format_of_path(s.last(), p) is Some {
            text_inserted(rest, s.last())
        } else {
            rest
        }
    }
}

/// The texts of some strings.
pub open spec fn texts(s: Seq<String>) -> Seq<Seq<char>> {
    s.map_values(|x: String| x@)
}

/// Whether no text stands before one that it is behind.
pub open spec fn texts_ordered(s: Seq<Seq<char>>) -> bool {
    forall|i: int, j: int| 0 <= i < j < s.len() ==> text_le(#[trigger] s[i], #[trigger] s[j])
}

/// Compares two texts by their characters.
fn compare_texts(a: &str, b: &str) -> (r: bool)
    ensures
        r == text_le(a@, b@),
{
    let x = chars_of(a);
    let y = chars_of(b);
    let mut i: usize = 0;
    assert(x@.skip(0) == x@);
    assert(y@.skip(0) == y@);
    while i < x.len()
        invariant
            i <= x@.len(),
            i <= y@.len(),
            x@ == a@,
            y@ == b@,
            text_le(x@, y@) == text_le(x@.skip(i as int), y@.skip(i as int)),
        decreases x@.len() - i,
    {
        if i == y.len() {
            return false;
        }
        if x[i] != y[i] {
            return x[i] < y[i];
        }
        assert(x@.skip(i as int).drop_first() == x@.skip(i + 1));
        assert(y@.skip(i as int).drop_first() == y@.skip(i + 1));
        i = i + 1;
    }
    true
}

proof fn lemma_text_inserted_at(s: Seq<Seq<char>>, x: Seq<char>, p: int)
    requires
        0 <= p <= s.len(),
        forall|j: int| p <= j < s.len() ==> !text_le(#[trigger] s[j], x),
        p > 0 ==> text_le(s[p - 1], x),
    ensures
        text_inserted(s, x) == s.insert(p, x),
    decreases s.len(),
{
    if p < s.len() {
        assert(!text_le(s[s.len() - 1], x));
        lemma_text_inserted_at(s.drop_last(), x, p);
        assert(s.drop_last().insert(p, x).push(s.last()) == s.insert(p, x));
    } else {
        assert(s.push(x) == s.insert(p, x));
    }
}

proof fn lemma_text_le_total(a: Seq<char>, b: Seq<char>)
    ensures
        text_le(a, b) || text_le(b, a),
    decreases a.len(),
{
    if a.len() > 0 && b.len() > 0 && a[0] == b[0] {
        lemma_text_le_total(a.drop_first(), b.drop_first());
    }
}

proof fn lemma_text_le_transitive(a: Seq<char>, b: Seq<char>, c: Seq<char>)
    requires
        text_le(a, b),
        text_le(b, c),
    ensures
        text_le(a, c),
    decreases a.len(),
{
    if a.len() > 0 && b.len() > 0 && c.len() > 0 && a[0] == b[0] && b[0] == c[0] {
        lemma_text_le_transitive(a.drop_first(), b.drop_first(), c.drop_first());
    }
}

proof fn lemma_text_inserted_items(s: Seq<Seq<char>>, x: Seq<char>)
    ensures
        text_inserted(s, x).len() == s.len() + 1,
        forall|i: int|
            0 <= i <= s.len() ==> (#[trigger] text_inserted(s, x)[i]) == x || s.contains(
                text_inserted(s, x)[i],
            ),
    decreases s.len(),
{
    if s.len() == 0 || text_le(s.last(), x) {
        assert forall|i: int| 0 <= i <= s.len() implies (#[trigger] text_inserted(s, x)[i]) == x
            || s.contains(text_inserted(s, x)[i]) by {
            if i < s.len() {
                assert(s[i] == text_inserted(s, x)[i]);
            }
        }
    } else {
        let t = s.drop_last();
        lemma_text_inserted_items(t, x);
        assert forall|i: int| 0 <= i <= s.len() implies (#[trigger] text_inserted(s, x)[i]) == x
            || s.contains(text_inserted(s, x)[i]) by {
            if i < s.len() {
                assert(text_inserted(s, x)[i] == text_inserted(t, x)[i]);
                if text_inserted(t, x)[i] != x {
                    let j = choose|j: int| 0 <= j < t.len() && t[j] == text_inserted(t, x)[i];
                    assert(s[j] == text_inserted(s, x)[i]);
                }
            } else {
                assert(s[s.len() - 1] == text_inserted(s, x)[i]);
            }
        }
    }
}

proof fn lemma_text_inserted_ordered(s: Seq<Seq<char>>, x: Seq<char>)
    requires
        texts_ordered(s),
    ensures
        texts_ordered(text_inserted(s, x)),
    decreases s.len(),
{
    let r = text_inserted(s, x);
    lemma_text_inserted_items(s, x);
    if s.len() == 0 || text_le(s.last(), x) {
        assert forall|i: int, j: int| 0 <= i < j < r.len() implies text_le(
            #[trigger] r[i],
            #[trigger] r[j],
        ) by {
            if j == s.len() && i < s.len() - 1 {
                assert(text_le(s[i], s[s.len() - 1]));
                lemma_text_le_transitive(s[i], s.last(), x);
            } else if j < s.len() {
                assert(text_le(s[i], s[j]));
            }
        }
    } else {
        let t = s.drop_last();
        assert(texts_ordered(t)) by {
            assert forall|i: int, j: int| 0 <= i < j < t.len() implies text_le(
                #[trigger] t[i],
                #[trigger] t[j],
            ) by {
                assert(text_le(s[i], s[j]));
            }
        }
        lemma_text_inserted_ordered(t, x);
        lemma_text_inserted_items(t, x);
        let u = text_inserted(t, x);
        assert forall|i: int, j: int| 0 <= i < j < r.len() implies text_le(
            #[trigger] r[i],
            #[trigger] r[j],
        ) by {
            if j == s.len() {
                assert(r[i] == u[i]);
                if u[i] == x {
                    lemma_text_le_total(s.last(), x);
                } else {
                    let m = choose|m: int| 0 <= m < t.len() && t[m] == u[i];
                    assert(text_le(s[m], s[s.len() - 1]));
                }
            } else {
                assert(r[i] == u[i] && r[j] == u[j]);
                assert(text_le(u[i], u[j]));
            }
        }
    }
}

/// What a scan finds is in order, and all of it is plugins.
pub proof fn scanned_paths_are_ordered_plugins(s: Seq<Seq<char>>, p: Platform)
    ensures
        texts_ordered(plugin_paths(s, p)),
        forall|i: int|
            0 <= i < plugin_paths(s, p).len() ==> format_of_path(
                #[trigger] plugin_paths(s, p)[i],
                p,
            ) is Some && s.contains(plugin_paths(s, p)[i]),
    decreases s.len(),
{
    if s.len() > 0 {
        let t = s.drop_last();
        scanned_paths_are_ordered_plugins(t, p);
        let rest = plugin_paths(t, p);
        if format_of_path(s.last(), p) is Some {
            lemma_text_inserted_ordered(rest, s.last());
            lemma_text_inserted_items(rest, s.last());
        }
        assert forall|i: int| 0 <= i < plugin_paths(s, p).len() implies format_of_path(
            #[trigger] plugin_paths(s, p)[i],
            p,
        ) is Some && s.contains(plugin_paths(s, p)[i]) by {
            let x = plugin_paths(s, p)[i];
            if x == s.last() {
                assert(s[s.len() - 1] == x);
                if format_of_path(s.last(), p) is None {
                    assert(rest[i] == x);
                }
            } else {
                if format_of_path(s.last(), p) is Some {
                    assert(rest.contains(x));
                    let j = choose|j: int| 0 <= j < rest.len() && rest[j] == x;
                    assert(format_of_path(rest[j], p) is Some && t.contains(rest[j]));
                } else {
                    assert(rest[i] == x);
                }
                let k = choose|k: int| 0 <= k < t.len() && t[k] == x;
                assert(s[k] == x);
            }
        }
    }
}

/// A loaded plugin as its client sees it.
#[derive(Debug)]
pub struct LoadedPlugin {
    pub id: PluginId,
    pub name: String,
    pub params: Vec<PluginParam>,
}

/// A loaded plugin. Its instrument is away while the audio thread plays it.
pub struct LoadedEntry<I> {
    pub name: String,
    pub instrument: Option<I>,
}

/// The number behind `id`; 1 follows the greatest.
pub open spec fn id_after(id: PluginId) -> PluginId {
    if id == u32::MAX {
        1
    } else {
        (id + 1) as u32
    }
}

/// The plugins that are loaded.
#[verifier::reject_recursive_types(I)]
pub struct PluginHost<I> {
    pub next_id: PluginId,
    pub plugins: HashMap<PluginId, LoadedEntry<I>>,
}

impl<I> Default for PluginHost<I> {
    fn default() -> (r: Self)
        ensures
            r.next_id == 1,
            r.plugins@ == Map::<PluginId, LoadedEntry<I>>::empty(),
    {
        PluginHost { next_id: 1, plugins: HashMap::new() }
    }
}

impl<I> PluginHost<I> {
    /// Whether a plugin is loaded.
    pub open spec fn is_loaded(&self, id: PluginId) -> bool {
        self.plugins@.contains_key(id)
    }

    /// The instrument that a plugin has here.
    pub open spec fn instrument_of(&self, id: PluginId) -> Option<I> {
        if self.plugins@.contains_key(id) {
            self.plugins@[id].instrument
        } else {
            None
        }
    }

    pub fn new() -> (r: Self)
        ensures
            r.next_id == 1,
            r.plugins@ == Map::<PluginId, LoadedEntry<I>>::empty(),
    {
        Self::default()
    }

    /// The plugins among the entries of a directory, in order.
    pub fn scan(&self, entries: Vec<String>, platform: Platform) -> (r: Vec<String>)
        ensures
            texts(r@) == plugin_paths(texts(entries@), platform),
    {
        let mut out: Vec<String> = Vec::new();
        let ghost all = texts(entries@);
        assert(texts(out@) == Seq::<Seq<char>>::empty());
        assert(all.take(0) == Seq::<Seq<char>>::empty());
        for i in 0..entries.len()
            invariant
                all == texts(entries@),
                texts(out@) == plugin_paths(all.take(i as int), platform),
        {
            let path = entries[i].clone();
            assert(all[i as int] == path@);
            assert(all.take(i + 1).drop_last() == all.take(i as int));
            if matches_plugin_ext(path.as_str(), platform) {
                let mut p: usize = out.len();
                while p > 0 && !compare_texts(out[p - 1].as_str(), path.as_str())
                    invariant
                        p <= out@.len(),
                        forall|j: int|
                            p <= j < out@.len() ==> !text_le(#[trigger] texts(out@)[j], path@),
                    decreases p,
                {
                    p = p - 1;
                }
                proof {
                    lemma_text_inserted_at(texts(out@), path@, p as int);
                    assert(texts(out@.insert(p as int, path)) == texts(out@).insert(
                        p as int,
                        path@,
                    ));
                }
                out.insert(p, path);
            }
        }
        assert(all.take(all.len() as int) == all);
        out
    }

    /// The backend for a path, or why there is none. `exists` says whether there
    /// is a file.
    pub fn backend_for(path: &str, exists: bool, platform: Platform) -> (r: Result<
        PluginFormat,
        HostError,
    >)
        ensures
            match r {
                Ok(f) => exists && format_of_path(path@, platform) == Some(f),
                Err(e) => if !exists {
                    e@ == HostErrorView::NotFound(path@)
                } else {
                    format_of_path(path@, platform) is None && e@ == HostErrorView::UnsupportedFormat(path@)
                },
            },
    {
        if !exists {
            return Err(HostError::NotFound(path.to_owned()));
        }
        if extension_is(path, "vst3", platform) {
            Ok(PluginFormat::Vst3)
        } else if extension_is(path, "clap", platform) {
            Ok(PluginFormat::Clap)
        } else {
            Err(HostError::UnsupportedFormat(path.to_owned()))
        }
    }

    /// Takes in an instrument under the next number.
    pub fn insert(&mut self, name: &str, inst: I) -> (r: PluginId)
        ensures
            r == old(self).next_id,
            final(self).next_id == id_after(old(self).next_id),
            final(self).plugins@.dom() == old(self).plugins@.dom().insert(r),
            final(self).plugins@[r].name@ == name@,
            final(self).plugins@[r].instrument == Some(inst),
            forall|id: PluginId|
                id != r && old(self).plugins@.contains_key(id) ==> (
                #[trigger] final(self).plugins@[id]) == old(self).plugins@[id],
    {
        let id = self.next_id;
        self.next_id =
        if id == u32::MAX {
            1
        } else {
            id + 1
        };
        self.plugins.insert(id, LoadedEntry { name: name.to_owned(), instrument: Some(inst) });
        id
    }

    /// Loads a plugin: `exists` says whether there is a file, and `built` what the
    /// backend for its format came to, which counts only where there is one.
    pub fn load(&mut self, path: &str, exists: bool, platform: Platform, built: Result<
        (I, String, Vec<PluginParam>),
        HostError,
    >) -> (r:
        Result<LoadedPlugin, HostError>)
        ensures
            r matches Ok(p) ==> exists && format_of_path(path@, platform) is Some && built is Ok && p.id
                == old(self).next_id && p.name == built->Ok_0.1 && p.params == built->Ok_0.2,
            !exists ==> r is Err && r->Err_0@ == HostErrorView::NotFound(path@),
            exists && format_of_path(path@, platform) is None ==> r is Err && r->Err_0@
                == HostErrorView::UnsupportedFormat(path@),
            exists && format_of_path(path@, platform) is Some && built is Err ==> r is Err && r->Err_0
                == built->Err_0,
            exists && format_of_path(path@, platform) is Some && built is Ok ==> r is Ok,
            r is Ok ==> final(self).next_id == id_after(old(self).next_id)
                && final(self).plugins@.dom() == old(self).plugins@.dom().insert(
                old(self).next_id,
            ) && final(self).instrument_of(old(self).next_id) == Some(built->Ok_0.0)
                && final(self).plugins@[old(self).next_id].name@ == built->Ok_0.1@ && (forall|
                id: PluginId,
            |
                id != old(self).next_id && old(self).plugins@.contains_key(id) ==> (
                #[trigger] final(self).plugins@[id]) == old(self).plugins@[id]),
            r is Err ==> *final(self) == *old(self),
    {
        match Self::backend_for(path, exists, platform) {
            Ok(_) => {},
            Err(e) => {
                return Err(e);
            },
        }
        match built {
            Ok((inst, name, params)) => {
                let id = self.insert(name.as_str(), inst);
                Ok(LoadedPlugin { id, name, params })
            },
            Err(e) => Err(e),
        }
    }

    /// Takes a plugin's instrument away, where it is here.
    pub fn take_instrument(&mut self, id: PluginId) -> (r: Option<I>)
        ensures
            r == old(self).instrument_of(id),
            final(self).next_id == old(self).next_id,
            final(self).plugins@.dom() == old(self).plugins@.dom(),
            final(self).instrument_of(id) is None,
            forall|other: PluginId|
                other != id && old(self).plugins@.contains_key(other) ==> (
                #[trigger] final(self).plugins@[other]) == old(self).plugins@[other],
            old(self).is_loaded(id) ==> final(self).plugins@[id].name == old(
                self,
            ).plugins@[id].name,
    {
        match self.plugins.remove(&id) {
            Some(entry) => {
                let LoadedEntry { name, instrument } = entry;
                self.plugins.insert(id, LoadedEntry { name, instrument: None });
                assert(self.plugins@.dom() =~= old(self).plugins@.dom());
                instrument
            },
            None => {
                assert(self.plugins@ =~= old(self).plugins@);
                None
            },
        }
    }

    /// Gives a plugin its instrument back; where the plugin is no longer loaded,
    /// the instrument is dropped.
    pub fn return_instrument(&mut self, id: PluginId, inst: I)
        ensures
            final(self).next_id == old(self).next_id,
            final(self).plugins@.dom() == old(self).plugins@.dom(),
            old(self).is_loaded(id) ==> final(self).instrument_of(id) == Some(inst)
                && final(self).plugins@[id].name == old(self).plugins@[id].name,
            forall|other: PluginId|
                other != id && old(self).plugins@.contains_key(other) ==> (
                #[trigger] final(self).plugins@[other]) == old(self).plugins@[other],
    {
        match self.plugins.remove(&id) {
            Some(entry) => {
                let LoadedEntry { name, instrument: _ } = entry;
                self.plugins.insert(id, LoadedEntry { name, instrument: Some(inst) });
                assert(self.plugins@.dom() =~= old(self).plugins@.dom());
            },
            None => {
                assert(self.plugins@ =~= old(self).plugins@);
            },
        }
    }

    /// Forgets a plugin.
    pub fn unload(&mut self, id: PluginId) -> (r: Result<(), HostError>)
        ensures
            r is Ok <==> old(self).is_loaded(id),
            r matches Err(e) ==> e@ == HostErrorView::NotFound("id "@ + decimal(id as nat)),
            final(self).next_id == old(self).next_id,
            final(self).plugins@ == old(self).plugins@.remove(id),
    {
        match self.plugins.remove(&id) {
            Some(_) => Ok(()),
            None => {
                let mut s = "id ".to_owned();
                push_decimal(&mut s, id as u64);
                Err(HostError::NotFound(s))
            },
        }
    }

    /// Gives back the instruments that the audio thread has put out. The built-in
    /// synth belongs to no plugin and is dropped.
    pub fn return_dropped(&mut self, dropped: Vec<(PluginId, I)>)
        ensures
            final(self).next_id == old(self).next_id,
            final(self).plugins@.dom() == old(self).plugins@.dom(),
            forall|id: PluginId|
                old(self).is_loaded(id) ==> (#[trigger] final(self).instrument_of(id))
                    == instrument_after(dropped@, id, old(self).instrument_of(id)),
            forall|id: PluginId|
                old(self).is_loaded(id) ==> (#[trigger] final(self).plugins@[id]).name == old(
                    self,
                ).plugins@[id].name,
    {
        let mut rest = dropped;
        let ghost all = rest@;
        assert(all.skip(0) == all);
        assert(all.take(0) == Seq::<(PluginId, I)>::empty());
        while rest.len() > 0
            invariant
                rest@.len() <= all.len(),
                rest@ == all.skip(all.len() - rest@.len()),
                self.next_id == old(self).next_id,
                self.plugins@.dom() == old(self).plugins@.dom(),
                forall|id: PluginId|
                    old(self).is_loaded(id) ==> (#[trigger] self.instrument_of(id))
                        == instrument_after(
                        all.take(all.len() - rest@.len()),
                        id,
                        old(self).instrument_of(id),
                    ),
                forall|id: PluginId|
                    old(self).is_loaded(id) ==> (#[trigger] self.plugins@[id]).name == old(
                        self,
                    ).plugins@[id].name,
            decreases rest@.len(),
        {
            let ghost n = all.len() - rest@.len();
            let ghost before = *self;
            let (id, inst) = rest.remove(0);
            proof {
                assert(all.take(n + 1).drop_last() == all.take(n));
                assert(all.take(n + 1).last() == (id, inst));
                assert(all.skip(n).remove(0) == all.skip(n + 1));
            }
            if id != BUILTIN_PLUGIN_ID {
                self.return_instrument(id, inst);
            }
            assert forall|other: PluginId| old(self).is_loaded(other) implies (
            #[trigger] self.instrument_of(other)) == instrument_after(
                all.take(n + 1),
                other,
                old(self).instrument_of(other),
            ) by {
                assert(before.instrument_of(other) == instrument_after(
                    all.take(n),
                    other,
                    old(self).instrument_of(other),
                ));
                assert(before.plugins@.contains_key(other));
                if other != id {
                    assert(self.plugins@.contains_key(other));
                    assert(id != BUILTIN_PLUGIN_ID ==> self.plugins@[other]
                        == before.plugins@[other]);
                }
            }
            assert forall|other: PluginId| old(self).is_loaded(other) implies (
            #[trigger] self.plugins@[other]).name == old(self).plugins@[other].name by {
                assert(before.plugins@.contains_key(other));
                assert(before.plugins@[other].name == old(self).plugins@[other].name);
            }
        }
        assert(all.take(all.len() as int) == all);
    }
}

/// The instrument that a plugin has after some were given back: the last of its
/// own among them, or the one that it had.
pub open spec fn instrument_after<I>(
    dropped: Seq<(PluginId, I)>,
    id: PluginId,
    had: Option<I>,
) -> Option<I>
    decreases dropped.len(),
{
    if dropped.len() == 0 {
        had
    } else if dropped.last().0 == id && id != BUILTIN_PLUGIN_ID {
        Some(dropped.last().1)
    } else {
        instrument_after(dropped.drop_last(), id, had)
    }
}

/// Texts are ordered as in a dictionary: one stands before another where it begins it, or
/// where the first character in which they differ is less.
pub proof fn texts_are_ordered_as_in_a_dictionary(a: Seq<char>, b: Seq<char>, n: nat)
    requires
        n <= a.len(),
        n <= b.len(),
        a.take(n as int) == b.take(n as int),
    ensures
        n == a.len() ==> text_le(a, b),
        n < a.len() && n == b.len() ==> !text_le(a, b),
        n < a.len() && n < b.len() && a[n as int] != b[n as int] ==> (text_le(a, b) <==> a[n as int]
            < b[n as int]),
    decreases n,
{
    if n > 0 {
        assert(a.take(n as int)[0] == a[0] && b.take(n as int)[0] == b[0]);
        let (s, t) = (a.drop_first(), b.drop_first());
        assert(s.take(n - 1) == a.take(n as int).drop_first());
        assert(t.take(n - 1) == b.take(n as int).drop_first());
        texts_are_ordered_as_in_a_dictionary(s, t, (n - 1) as nat);
    }
}

proof fn lemma_text_inserted_multiset(s: Seq<Seq<char>>, x: Seq<char>)
    ensures
        text_inserted(s, x).to_multiset() == s.to_multiset().insert(x),
    decreases s.len(),
{
    broadcast use vstd::seq_lib::group_to_multiset_ensures;

    if s.len() > 0 && !text_le(s.last(), x) {
        let t = s.drop_last();
        lemma_text_inserted_multiset(t, x);
        assert(s == t.push(s.last()));
        assert(t.to_multiset().insert(x).insert(s.last()) =~= t.to_multiset().insert(
            s.last(),
        ).insert(x));
    }
}

/// A scan finds every plugin among the entries, each as often as it is there, and nothing
/// else.
pub proof fn scan_finds_every_plugin(s: Seq<Seq<char>>, p: Platform)
    ensures
        plugin_paths(s, p).to_multiset() == s.filter(
            |x: Seq<char>| has_extension(x, "vst3"@, p) || has_extension(x, "clap"@, p),
        ).to_multiset(),
    decreases s.len(),
{
    broadcast use vstd::seq_lib::group_to_multiset_ensures;

    reveal(Seq::filter);
    if s.len() > 0 {
        scan_finds_every_plugin(s.drop_last(), p);
        if format_of_path(s.last(), p) is Some {
            lemma_text_inserted_multiset(plugin_paths(s.drop_last(), p), s.last());
        }
    } else {
        assert(s.filter(
            |x: Seq<char>| has_extension(x, "vst3"@, p) || has_extension(x, "clap"@, p),
        ) == plugin_paths(s, p));
    }
}

/// A plugin's format is told by its extension alone, and the two are told apart.
pub proof fn format_is_told_by_the_extension(path: Seq<char>, p: Platform)
    ensures
        has_extension(path, "vst3"@, p) ==> format_of_path(path, p) == Some(PluginFormat::Vst3),
        has_extension(path, "clap"@, p) ==> format_of_path(path, p) == Some(PluginFormat::Clap),
        !has_extension(path, "vst3"@, p) && !has_extension(path, "clap"@, p) ==> format_of_path(
            path,
            p,
        ) is None,
{
    reveal_strlit("vst3");
    reveal_strlit("clap");
    if has_extension(path, "vst3"@, p) && has_extension(path, "clap"@, p) {
        let (a, b) = (
            crate::text::ascii_lowered("vst3"@),
            crate::text::ascii_lowered("clap"@),
        );
        assert(a == b);
        assert(a[0] == 'v' && b[0] == 'c');
    }
}

/// An instrument that was given back is its plugin's from then on, until another is; the
/// built-in synth is nobody's.
pub proof fn returned_instrument_is_its_plugins<I>(
    dropped: Seq<(PluginId, I)>,
    back: (PluginId, I),
    id: PluginId,
    had: Option<I>,
)
    ensures
        instrument_after(Seq::empty(), id, had) == had,
        back.0 == id && id != 0 ==> instrument_after(dropped.push(back), id, had) == Some(back.1),
        back.0 != id || id == 0 ==> instrument_after(dropped.push(back), id, had)
            == instrument_after(dropped, id, had),
{
    assert(dropped.push(back).drop_last() == dropped);
}

/// The number behind a number is another one, and never that of the built-in synth.
pub proof fn next_plugin_gets_another_number(id: PluginId)
    ensures
        id_after(id) != 0,
        id < u32::MAX ==> id_after(id) == id + 1,
        id_after(id) != id,
{
}

/// Every error says what it is about in its words.
pub proof fn errors_say_what_they_are_about(s: Seq<char>)
    ensures
        host_error_text(HostErrorView::NotFound(s)) == "plugin not found: "@ + s,
        host_error_text(HostErrorView::UnsupportedFormat(s)) == "unsupported plugin format: "@ + s,
        host_error_text(HostErrorView::ScanFailed(s)) == "plugin scan failed: "@ + s,
        host_error_text(HostErrorView::LoadFailed(s)) == "plugin load failed: "@ + s,
{
}

} // verus!
