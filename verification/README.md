# dotsync

Sync user-level configuration between machines through a cloud folder, with
symlinks. Paths under the home base move into a folder that a cloud client keeps
in sync, and a symlink takes their place.

- `src/` is the library, verified with Verus: every rule and decision. It works on
  values: what was found at a path goes in, and a script of operations or the text
  to show comes out.
- `app/` is the command line around it: it reads the disk and the environment,
  carries the scripts out, asks the user, and prints.
- `tests/` runs the library on concrete values, with a small filesystem that lives
  in memory.

Where to look in `src/`:

| Modules | What they hold |
|---|---|
| `text`, `number`, `order`, `path` | texts, numbers, sorting order, paths by component |
| `mapping`, `document`, `group`, `config`, `discovery` | the shared document, groups, per-machine configuration, cloud folders |
| `tree`, `fsutil`, `volume` | what stands at a path, primitive filesystem steps, and what they promise |
| `plan`, `apply`, `script`, `journal`, `disk` | the state of a mapping, what each operation does, how it is undone, and what that promises |
| `doctor`, `select`, `manage` | health checks, selecting, groups and consent |
| `ui`, `overview`, `report`, `json`, `shell`, `error` | what is shown |

The promises that span functions are the proof functions whose names begin with
`law_`. What is taken on trust is marked where it stands: `String::push`,
`str::to_lowercase` and `{:?}` on a text in `text`, and `serde_json`'s two
serializers in `json`.
