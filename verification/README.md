# ChatGPT Bridge

The decisions of a small self-hosted service that lets a Custom GPT work on a
Linux development workspace, written in Verus: every rule it follows is stated
as a contract and proved.

- `src/` is the library. It parses, checks, plans and answers; it performs no
  input or output. Where an answer depends on the file system or on another
  program, it comes in steps: a value tells what is to be done next, and the
  method that takes the reply gives the next value.
- `app/` is the program around it: the HTTP service, the command line and the
  file system operations that the library plans.
- `tests/` runs the library, among others against a file system in memory.

## The library

| Modules | What they decide |
| --- | --- |
| `text`, `path`, `order`, `sequence`, `digest` | Texts, paths, orders and digests. |
| `tree`, `snapshot`, `restore`, `atomic` | What is recorded of a directory, and how it is brought back. |
| `history`, `checkpoint`, `operations` | Checkpoints: changes, going back, undoing, listing. |
| `disk`, `recording`, `rollback`, `repository`, `safety` | Models of the file system and of the store, and what the operations promise taken together. |
| `workspace`, `routes`, `auth` | What requests may do, and what they are answered. |
| `cli`, `program`, `command`, `service`, `config`, `config_text`, `updater` | The command line, the configuration and updates. |
| `outside` | The calls into `std`, `sha2` and `serde_json` whose contracts are taken on trust. |

## Some of what is proved

- A restore makes a directory look as it was recorded, entry by entry, and
  leaves ignored paths such as `.git` alone, whether or not it succeeds; it is
  refused where something that is not recorded is in the way
  (`recording::law_checkpoints_bring_directories_back`,
  `disk::law_restore_keeps_ignored`).
- A restore that fails half-way is undone
  (`rollback::law_failed_restore_is_undone`), and one that was forced can be
  taken back (`safety::law_safety_checkpoint_brings_back`).
- No operation destroys history, and nothing that is not recorded is lost
  (`repository`).
- A path of a request leads inside the workspace or nowhere (`workspace`).
- A value that is set in the configuration is read back as it was, and other
  values stay (`config_text`).
- Only a program whose checksum and version were verified is installed
  (`updater`).
