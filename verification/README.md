# ssh_manager

The core of an SSH configuration manager, verified with Verus: servers, jump
hosts and SSH keys kept in a store indexed by name, the validation rules that
guard every change, and the text of `~/.ssh/config`: the rendering of host
blocks, the managed block, its merge into a hand-written config, and the
checks run on a config before it is written.

- `src/` is the verified library. `text` and `order` model strings as
  `Seq<char>` (trimming, words, lines, decimal numbers, lexicographic order);
  `keyed` reads lists of records as maps; `store`, `ssh_config`, `git_sync`
  and `deploy` hold the application's rules; `patterns` holds the calls into
  the `regex` crate; `laws` states what holds across operations, and
  `restrip` proves that merging an already merged config changes nothing.
- `app/` is the program around it: JSON persistence, file writes, the git
  repository, the credential store, SSH sessions, and the commands of the
  user interface.
- `tests/` exercises the library on concrete values.
