//! What makes sound.
use vstd::prelude::*;

verus! {

/// The number under which the host knows a loaded plugin.
pub type PluginId = u32;

/// The number of the built-in synth. Loaded plugins are numbered from 1.
pub const BUILTIN_PLUGIN_ID: PluginId = 0;

/// A sound producer that the audio thread drives. Implementations neither
/// allocate nor take locks in these methods.
pub trait Instrument {
    fn note_on(&mut self, pitch: u8, velocity: u8);

    fn note_off(&mut self, pitch: u8);

    /// What it means that `after` is the instrument `before` with every note released.
    /// Each implementation says this for itself; one that does not promises nothing.
    open spec fn silenced(before: &Self, after: &Self) -> bool {
        true
    }

    /// Releases every sounding note.
    fn all_notes_off(&mut self)
        ensures
            Self::silenced(old(self), final(self)),
    ;
}

} // verus!
