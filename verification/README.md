# football-coach-poc

A desktop tool for football tactical analysis: load a clip, detect and track
players and the ball, map them onto the pitch, and read coach-facing metrics
and insights.

## Layout

- `src/` — the verified core, written in Verus. Every function there carries a
  `requires`/`ensures` contract proved by Verus: class filters, pitch
  landmarks and areas, playback and trim bookkeeping, frame sampling and
  pitch-scan rules, tracker bookkeeping, occupancy and event tallies,
  insight rules, the media-library index, capture-source listing and the
  downloader's output parsing. Properties that span several calls are stated
  as public proof functions (`lemma_*`).
- `tests/` — tests of the library on concrete values.
- `app/` — the program around the library: the egui window, video decoding,
  ONNX detection, floating-point metrics, file and process I/O. It calls the
  library for every decision the library makes.
