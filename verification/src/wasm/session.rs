//! The phrases of a session.
use crate::text::{decimal, push_decimal};
use crate::theory::phrase::{LyricLine, Phrase, PhraseView};
use crate::theory::rhythm::TimeSignature;
use crate::theory::scale::{scale_fits, Scale};
use std::collections::HashMap;
use vstd::prelude::*;
use vstd::std_specs::iter::IteratorSpec;
use vstd::string::*;

verus! {

broadcast use vstd::std_specs::hash::group_hash_axioms;

/// Phrases under their numbers, and what holds where a phrase names nothing.
#[derive(Debug)]
pub struct Session {
    pub phrases: HashMap<u32, Phrase>,
    pub next_id: u32,
    pub key: Option<Scale>,
    pub tempo: u16,
    pub time_sig: TimeSignature,
}

/// What a session holds.
#[verifier::ext_equal]
pub struct SessionView {
    pub phrases: Map<u32, PhraseView>,
    pub next_id: u32,
    pub key: Option<Scale>,
    pub tempo: u16,
    pub time_sig: TimeSignature,
}

impl View for Session {
    type V = SessionView;

    open spec fn view(&self) -> SessionView {
        SessionView {
            phrases: self.phrases@.map_values(|p: Phrase| p@),
            next_id: self.next_id,
            key: self.key,
            tempo: self.tempo,
            time_sig: self.time_sig,
        }
    }
}

/// A session without phrases.
pub open spec fn empty_session() -> SessionView {
    SessionView {
        phrases: Map::empty(),
        next_id: 1,
        key: None,
        tempo: 120,
        time_sig: TimeSignature { numerator: 4, denominator: 4 },
    }
}

impl Default for Session {
    fn default() -> (r: Self)
        ensures
            r@ == empty_session(),
            session_wf(r@),
    {
        let r = Session {
            phrases: HashMap::new(),
            next_id: 1,
            key: None,
            tempo: 120,
            time_sig: TimeSignature::four_four(),
        };
        assert(r@.phrases == Map::<u32, PhraseView>::empty());
        r
    }
}

/// A phrase as a session keeps it: with a number, and with the session's key and
/// tempo where it has none.
pub open spec fn kept_phrase(s: SessionView, p: PhraseView) -> PhraseView {
    PhraseView {
        id: s.next_id,
        key: if p.key is Some {
            p.key
        } else {
            s.key
        },
        tempo: if p.tempo == 0 {
            s.tempo
        } else {
            p.tempo
        },
        ..p
    }
}

/// The session with one more phrase.
pub open spec fn with_phrase(s: SessionView, p: PhraseView) -> SessionView {
    SessionView {
        phrases: s.phrases.insert(s.next_id, kept_phrase(s, p)),
        next_id: (s.next_id + 1) as u32,
        ..s
    }
}

/// Whether the key can be spelt out, and every phrase stands under its own number,
/// below the next one.
pub open spec fn session_wf(s: SessionView) -> bool {
    &&& s.key matches Some(k) ==> scale_fits(k)
    &&& forall|id: u32| #[trigger]
        s.phrases.contains_key(id) ==> id < s.next_id && s.phrases[id].id == id
}

/// The words for a phrase that is not there.
pub open spec fn not_found(id: u32) -> Seq<char> {
    "phrase "@ + decimal(id as nat) + " not found"@
}

/// The failure to find a phrase.
pub fn phrase_not_found(id: u32) -> (r: String)
    ensures
        r@ == not_found(id),
{
    let mut s = "phrase ".to_owned();
    push_decimal(&mut s, id as u64);
    s.append(" not found");
    s
}

impl Session {
    /// Keeps a phrase and gives its number.
    pub fn add_phrase(&mut self, phrase: Phrase) -> (id: u32)
        requires
            old(self).next_id < u32::MAX,
        ensures
            id == old(self)@.next_id,
            final(self)@ == with_phrase(old(self)@, phrase@),
            session_wf(old(self)@) ==> session_wf(final(self)@),
    {
        let id = self.next_id;
        self.next_id = id + 1;
        let mut p = phrase;
        p.id = id;
        if p.key.is_none() {
            p.key = self.key;
        }
        if p.tempo == 0 {
            p.tempo = self.tempo;
        }
        assert(p@ == kept_phrase(old(self)@, phrase@));
        self.phrases.insert(id, p);
        assert(self@.phrases == old(self)@.phrases.insert(id, p@));
        id
    }

    /// The phrase under a number.
    pub fn get(&self, id: u32) -> (r: Option<&Phrase>)
        ensures
            match r {
                Some(p) => self@.phrases.contains_key(id) && p@ == self@.phrases[id],
                None => !self@.phrases.contains_key(id),
            },
    {
        self.phrases.get(&id)
    }

    /// Lets a line be the lyrics of a phrase.
    pub fn attach_lyrics(&mut self, id: u32, line: LyricLine) -> (r: Result<(), String>)
        ensures
            old(self)@.phrases.contains_key(id) ==> r is Ok && final(self)@ == (SessionView {
                phrases: old(self)@.phrases.insert(
                    id,
                    PhraseView { lyrics: seq![line@], ..old(self)@.phrases[id] },
                ),
                ..old(self)@
            }),
            !old(self)@.phrases.contains_key(id) ==> r is Err && r->Err_0@ == not_found(id)
                && final(self)@ == old(self)@,
            session_wf(old(self)@) ==> session_wf(final(self)@),
    {
        match self.phrases.remove(&id) {
            Some(p) => {
                let mut p = p;
                let ghost before = p@;
                let mut lyrics: Vec<LyricLine> = Vec::new();
                lyrics.push(line);
                p.lyrics = lyrics;
                assert(p@.lyrics == seq![line@]);
                assert(p@ == (PhraseView { lyrics: seq![line@], ..before }));
                self.phrases.insert(id, p);
                assert(self@.phrases == old(self)@.phrases.insert(id, p@));
                Ok(())
            },
            None => {
                assert(self@.phrases == old(self)@.phrases);
                Err(phrase_not_found(id))
            },
        }
    }

    /// The numbers of the phrases, in no given order.
    pub fn ids(&self) -> (r: Vec<u32>)
        ensures
            r@.no_duplicates(),
            r@.to_set() == self@.phrases.dom(),
    {
        let mut out: Vec<u32> = Vec::new();
        let keys = self.phrases.keys();
        let ghost all = keys.remaining().unref();
        for k in iter: keys
            invariant
                iter.seq().unref() == all,
                out@ == all.take(iter.index()),
        {
            out.push(*k);
        }
        assert(all.take(all.len() as int) == all);
        assert(self@.phrases.dom() == self.phrases@.dom());
        out
    }
}

/// A phrase that was added is found under the number that it was given, as a session
/// keeps it.
pub proof fn added_phrase_is_found(s: SessionView, p: PhraseView)
    ensures
        with_phrase(s, p).phrases.contains_key(s.next_id),
        with_phrase(s, p).phrases[s.next_id] == kept_phrase(s, p),
{
}

/// Adding a phrase takes none away and changes none.
pub proof fn adding_keeps_phrases(s: SessionView, p: PhraseView, id: u32)
    requires
        session_wf(s),
        s.phrases.contains_key(id),
    ensures
        with_phrase(s, p).phrases.contains_key(id),
        with_phrase(s, p).phrases[id] == s.phrases[id],
{
}

/// Two phrases that are added one after the other get different numbers.
pub proof fn numbers_differ(s: SessionView, p: PhraseView, q: PhraseView)
    requires
        s.next_id < u32::MAX,
    ensures
        kept_phrase(s, p).id != kept_phrase(with_phrase(s, p), q).id,
{
}

/// A phrase's own key and tempo come before the session's.
pub proof fn own_settings_win(s: SessionView, p: PhraseView)
    ensures
        p.key is Some ==> kept_phrase(s, p).key == p.key,
        p.tempo != 0 ==> kept_phrase(s, p).tempo == p.tempo,
        kept_phrase(s, p).events == p.events,
        kept_phrase(s, p).lyrics == p.lyrics,
{
}

/// A phrase is kept with a number of its own, and with the session's key and tempo where
/// it has none; nothing else of it changes, nor of the session but the next number.
pub proof fn kept_phrase_is_completed(s: SessionView, p: PhraseView)
    requires
        s.next_id < u32::MAX,
    ensures
        ({
            let t = with_phrase(s, p);
            let k = t.phrases[s.next_id];
            &&& t.phrases.contains_key(s.next_id)
            &&& k.id == s.next_id
            &&& k.key == (if p.key is Some {
                p.key
            } else {
                s.key
            })
            &&& p.tempo != 0 ==> k.tempo == p.tempo
            &&& p.tempo == 0 ==> k.tempo == s.tempo
            &&& k.label == p.label && k.events == p.events && k.time_sig == p.time_sig
            &&& k.bars == p.bars && k.lyrics == p.lyrics
            &&& t.next_id == s.next_id + 1
            &&& t.key == s.key && t.tempo == s.tempo && t.time_sig == s.time_sig
            &&& t.phrases.dom() == s.phrases.dom().insert(s.next_id)
        }),
{
}

/// A session begins without phrases and without a key, in four-four time at 120 beats per
/// minute, and counts its phrases from one.
pub proof fn session_begins_empty()
    ensures
        empty_session().phrases.dom().len() == 0,
        empty_session().next_id == 1,
        empty_session().key is None,
        empty_session().tempo == 120,
        empty_session().time_sig.numerator == 4 && empty_session().time_sig.denominator == 4,
{
}

} // verus!
