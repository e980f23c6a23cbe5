# myme

A Japanese input method engine, written and verified in Verus.

- `src/` is the verified library. Text is modelled as `Seq<char>`; every type has a
  view, and the functions state what they return in terms of those views.
  - `text`, `number`, `order`, `kana`: characters, decimal notation, sorting, kana.
  - `romaji_table`, `romaji`: romaji-to-kana conversion, one keystroke at a time.
  - `skk`, `dictionary`, `user_dict`: the SKK dictionary format, lookup and prefix
    search, and the merge of a user dictionary with the system dictionary.
  - `candidate`, `segmenter`: ranking, and greedy longest-match segmentation.
  - `learning`: the selection history, its boosts and its file format.
  - `session_model`, `session`: the session state machine, as a function and as code.
  - `ffi`: the session as a platform input method sees it.
  - `dict_builder`, `eval`, `cli`: compiling the system dictionary, scoring
    conversions, and what the command-line harness decides and shows.
  - `romaji_laws`, `dictionary_laws`, `learning_laws`, `session_laws`: what holds
    over several calls.
- `app/` is the program around it: arguments, files, the terminal and the C
  interface.
- `tests/` runs the library.
