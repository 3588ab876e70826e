# fireredvad

A voice-activity detector whose decision logic is verified with Verus.

`src/` is the verified library:

- `postprocess/` turns thresholded per-frame speech decisions into speech
  segments: the four-phase state machine (`state_machine`), the onset
  correction, merging and extension passes (`refine`), splitting of
  over-long speech at low-probability frames (`split`), speech runs and
  millisecond segments (`runs`), the whole chain (`pipeline`) and the
  configuration with its optional dynamic silence schedule (`config`).
- `fbank` (framing of the signal), `vad` (chunks of parallel inference),
  `model` (memory taps of the FSMN layers), `audio` and `cmvn` (input
  checks).

Probabilities are floating point, so the library never sees them: it takes
the thresholded decisions and, for splitting, integer keys that order the
frames as their probabilities do.

`app/` is the command-line program: WAV decoding and resampling, log-Mel
features, normalisation, the neural network, smoothing and thresholding of
probabilities, and JSON output. It expects `model_meta.json`, `cmvn.json`
and `weights.npz` in a `model` directory.
