# Cadenza

Music theory, MIDI files, MusicXML scores, and the rules of an audio daemon that plays
phrases and hosts plugins.

`src/` is the verified library:

- `theory`: pitches, intervals, scales, chords, rhythm and phrases;
- `midi`: writing and reading standard MIDI files, and what a file keeps of a phrase;
- `musicxml`: cutting notes at bar lines and writing scores;
- `daemon`: the audio queues, the timeline of a phrase, the synth's voices, the plugin
  host, and what each client message leads to;
- `shell`: finding the daemon's binary and deciding when it is started again;
- `wasm`: the session behind the web front end;
- `text`, `sorting`, `rounding`: what the others share.

Floating-point numbers are held as their bits. `app/` is the program around the
library: the audio device, the WebSocket server, the plugin interfaces, the native shell
and the web exports. `tests/` runs the library from outside.
