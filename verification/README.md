# grepgrep

A desktop audio practice and transcription tool: waveform and spectrogram
views, loop regions, pitch-preserving speed control, timeline markers and
single-file projects.

- `src/` is the verified library (Verus). It holds the rules of the program:
  contrast stretching of spectrogram heatmaps, the frame, bucket and bin
  arithmetic of the visible windows and their bounded caches, grain geometry,
  loop bounds, channel routing and output-queue compaction of the playback
  engine, the reference-tone schedule, timeline markers kept in time order
  with their inline editor, time labels, Unix path structure, supported file
  formats, the path rules of project files and the zip archives that hold
  them, SVG tag/attribute extraction and
  hex colors, and the keyboard shortcuts of the main window.
- `tests/` exercises the library on concrete values.
- `app/` is the program around it: the egui window, audio decoding
  (Symphonia) and output (cpal), the floating-point signal processing, and
  reading and writing project files (serde_json).
