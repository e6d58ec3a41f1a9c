# audio_fingerprint

Landmark-based audio fingerprinting with a verified core.

A song is decoded, low-pass filtered, downsampled and cut into frames; in
every frame the strongest bin of each frequency band is found, and those at
least 1.5 times the mean of these band maxima become peaks (the strongest
peaks are kept, near duplicates merged); every peak
is paired with the next five peaks, and each pair is packed into a 32-bit
address (anchor bin, target bin, time distance). Indexed songs are stored as
maps from address to anchor time and song id. A recorded sample is matched by
collecting, per indexed file, the anchor times that share an address with the
sample and counting the couples of hits whose time distances agree.

Layout:

- `src/` — the verified library (Verus):
  - `decoding.rs`: opening an MP3 stream, reading packets and taking in decoded ones;
  - `models.rs`: constants, `Couple`, `PeakPair`, `Band`, `Match`;
  - `signal.rs`: downsampling by block means and framing;
  - `peaks.rs`: strongest bin per frequency band;
  - `fingerprint.rs`: address packing, target zones, fingerprints;
  - `database.rs`: indexing the stored fingerprints by requested address;
  - `matching.rs`: scoring and ranking of indexed files against a sample;
  - `training.rs`: fingerprinting songs under random ids.
- `app/` — the program: file reading, the packet loop, floating-point filtering, windowing,
  FFT and peak thresholding, JSON storage, and the command-line flow.
- `tests/` — tests of the library.
