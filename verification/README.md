# ignition

The logic of Ignition, a Windows start-up launcher: a list of programs,
files, folders and web pages that is opened at login, one after another,
with configurable pauses.

- `src/` is the verified library: text handling (`text`), the
  launch list and how a dropped path or URL becomes an item (`config`),
  the edits the window asks for (`commands`), argument splitting, launch
  plans and reports (`launch`), BMP and Base64 encoding (`bmp`, `base64`)
  and icon data URLs (`icon`). `host` holds the few calls whose answers
  come from the platform, the disk or chance (`std::path`, `uuid`).
- `app/` is the Tauri shell around it: the window and its commands, the
  JSON configuration file, spawning processes, and the Win32 icon lookup.
- `tests/` exercises the library on concrete values.
