# badtv

A command-line tool that stitches single words, cut from TV news recordings of the
Internet Archive, into an infomercial-style audio collage.

The crate is split in two:

- `src/` is the library, verified with Verus: character-level text handling
  (trimming, splitting, search, replacement), the SubRip caption parser that finds
  the caption blocks mentioning a word, the conversion and station filtering of
  archive search results, the ranking of the words a speech aligner heard against
  the target word, the layout of stitched clips, the search through candidate clips
  (a small state machine driven by the caller), the interactive selection state, and
  model-path handling. Each public function carries a contract; the laws of the
  library (symmetry of the edit-distance and homophone relations, progress of the
  clip search, the layout of a stitch without crossfade, and others) are proof
  functions next to the code they speak of.
- `app/` is the program around it: command-line parsing, HTTP requests, the Python
  and whisper.cpp speech aligners, WAV reading and writing, the terminal interface
  and all floating-point signal processing (normalisation, pitch shifting,
  equalisation, compression, reverb, limiting and crossfade blending).
