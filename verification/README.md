# smfh

`smfh` is a declarative file manager. A JSON manifest lists entries, each saying
what is to be at a path: a copy, a symbolic link, a directory, other permissions
or another owner, or nothing. `smfh` brings the file system into that state, takes
it back, or applies the delta between two manifests.

The library in `src/` is verified with Verus. It never touches the file system
itself: every operation is a program that asks for actions (look at a node, rename
a path, hash a file) and goes on with the replies. Its contract names that program,
so it fixes each action and the result for every sequence of replies. `app/` is the
command line program, which takes the actions for real.

## Layout

| Where | What |
| --- | --- |
| `src/path.rs`, `src/text.rs`, `src/message.rs` | paths by components, octal modes, messages |
| `src/manifest.rs`, `src/order.rs`, `src/merge.rs`, `src/split.rs` | manifests, their rules and order, merging, comparing |
| `src/read.rs`, `src/written.rs` | the version gate, pure and impure paths, manifests written and read back |
| `src/action.rs`, `src/program.rs` | actions, replies, and programs made of them |
| `src/file_util.rs`, `src/batch.rs`, `src/apply.rs`, `src/diff.rs` | activation, deactivation, deltas |
| `src/kept.rs` | what entries keep of what they see |
| `src/choice.rs` | how an entry's own `clobber` and the default go together |
| `src/temporary.rs`, `src/cli.rs` | random names, commands and exit codes |
| `src/conduct.rs` | what operations may ask for, whatever the replies |
| `src/model.rs`, `src/effect.rs`, `src/making.rs`, `src/attain.rs` | a model of a file system, and what single entries attain in it |
| `src/whole.rs` | what whole manifests attain |
| `src/refresh.rs`, `src/leftover.rs`, `src/protect.rs`, `src/delta.rs` | what deltas attain, and which are refused |
| `tests/` | whole operations against a file system in memory, and everything else |
| `app/` | `main`, the command line, JSON, and the real file system |

## What is proved

- Every operation asks for exactly the actions that its program says, and returns
  what the program returns.
- Activation that succeeds leaves the target as the entry describes; what had to
  make way and may not be thrown away is at its backup path; everything else is as
  it was. A link to a source that is not to be followed holds the source as it is
  written.
- An entry's own `clobber` counts as the default would, but for a copy with
  `false`: that one keeps what it finds and differs from what it says.
- When a manifest whose entries do not get in each other's way has been activated,
  every entry that did not fail is in force: no later one has undone it.
- Deactivation removes a target only if it is still as the entry describes;
  modifies and deletes have nothing to take back.
- A target is replaced in one step or left untouched.
- A delta is refused exactly if it would destroy a modified target; it names those
  targets, and nothing has changed. One that succeeds leaves every new entry in
  force, every changed one in place, and what was removed gone, and nothing changes
  but what it is about. An entry that is skipped because its source is missing is no
  failure, and is not in force; a warning tells of it.
- Whatever the environment says, expanding a path fails only over a variable, and
  keeps what stands before the first `$`, and behind the last variable from a
  separator on.
- A manifest that was written is read back as it was, but for settings that are
  taken for granted anyway.
- Entries are applied in a fixed, stable order; merging keeps the last entry of each
  kind and target; no entry is lost between two manifests.

What is trusted: BLAKE3, `serde_json`, `shellexpand`, `rand`, and the standard
library for UTF-8 and for the system's words on an error, each behind a small
wrapper that says what is taken for granted.

Linux keeps no mode for a link. An entry for a link that asks for one other than the
link has therefore fails there, and the file that the link leads to is left alone.

## Exit codes

| Code | Meaning |
| --- | --- |
| 0 | success |
| 1 | an entry could not be activated or deactivated |
| 2 | the manifest is newer than the program |
| 3 | the manifest cannot be read or does not comply |
| 4 | a path cannot be expanded |
