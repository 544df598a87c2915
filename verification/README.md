# vibevoice

Speech-to-text transcription with the VibeVoice ASR model, as a verified
library and a command-line program around it.

- `src/` is the library, verified with Verus: the chunk plan of long
  recordings, the merging of chunk transcripts into one timeline, the
  prompt and acoustic-mask layout, greedy decoding control, weight file and
  prefix selection, the audio encoder layout, model configuration and its
  defaults, device selection, the streamed JSON output file and the text
  rendering of transcripts. Times are whole milliseconds.
- `tests/` exercises the library.
- `app/` is the program: argument parsing, audio decoding and resampling,
  tensor computation of the model, model download, file output and the
  JSON forms of the library's values.
