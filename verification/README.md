# stq8-core

STQ8 turns bytes into speakable Q8 syllables and back, trains a listener's
ear with flashcards, and assembles bytes from syllables recognised in speech.

- `src/` is the verified library (Verus): Q8 text (`q8`), flashcards
  (`flashcard`), syllable pairing with its carry between utterances
  (`pipeline`), segmentation of frame activity marks (`segmenter`),
  transversal phrases and Top-2 reconstruction (`transversal`), phoneme
  remapping and profile import checks (`profile`), and the tome of scrolls
  with prefix lookup and hex addresses (`tome`). Each public function states
  its result in its contract; the `law_*` proof functions state what holds
  across calls.
- `app/` is plain Rust around it: the floating-point audio front end (MFCC,
  energy, classifiers, thresholds), the serde forms of the library's types,
  and the WebAssembly bindings.
- `tests/` exercises the library on concrete values.
