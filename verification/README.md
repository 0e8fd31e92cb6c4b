# dedent-paste

Paste clipboard text with its common indentation removed, turn clipboard
images into text with Gemini, and manage the Karabiner-Elements hotkey rule
and self-updates.

Layout:

- `src/` is the verified library (Verus). Each public function states what it
  returns in its contract (where an outside crate computes part of it, through
  a named result of that crate's call); the modules hold the laws of the library as proof
  functions:
  - `dedent`: the text transformation, prompt blocks included;
  - `karabiner`: installing and removing the hotkey rule in `karabiner.json`;
  - `settings`, `gemini`: image-to-text settings, request and response;
  - `cli`: the command line and paste settings;
  - `flow`: what each step of a hotkey press leads to;
  - `update`: versions, install methods, release metadata, update decisions;
  - `logfmt`, `calendar`: log lines and their UTC timestamps;
  - `clipboard`: the macOS `osascript` helpers;
  - `json`, `json_text`, `text`: the JSON document model, JSON text through
    serde_json, and character-level helpers.
- `app/` is the program around it: argument dispatch, clipboard access per
  platform, HTTP calls, file access and logging.
- `tests/` runs the library on concrete inputs.
