# respawn

Undo as infrastructure: content-addressed snapshots of a directory tree,
drift detection, per-file atomic revert, a hash-chained audit log with signed
external checkpoints, and replication between machines on a LAN.

## Layout

- `src/` is the library, written and proved in Verus. It computes and
  decides; it performs no I/O. Functions take what was read as plain values
  and return what is to be written.
- `app/` is the `respawn` command around it: files, sockets, processes, JSON.
- `tests/` runs the library on concrete values, whole operations on an
  in-memory worktree among them.

| module | what it holds |
|---|---|
| `error`, `text`, `order`, `index`, `hashset`, `paths`, `dates` | errors, text, sorting and lookup, path rules, UTC dates |
| `digest`, `keys`, `json` | BLAKE3 and hexadecimal, Ed25519, the JSON text that audit hashes cover |
| `store`, `cdc`, `capture`, `snapshot`, `history` | objects and manifests, chunking, taking snapshots, loading, resolving, comparing and listing them |
| `drift`, `revert`, `guard`, `watch` | what changed, putting it back, running commands under guard, reporting events |
| `audit`, `anchor`, `keychain`, `schedule` | the audit chain, signed checkpoints, where the signing key lives, minting on a schedule |
| `wire`, `sync`, `secure` | frames and requests, pulling from a peer, the Noise transport |
| `apfs`, `admin`, `cli` | macOS frozen views and authorization, what the operator is told |

## What is trusted

BLAKE3, Ed25519, zstd, FastCDC, Noise, hexadecimal coding, JSON text and
random bytes come from the crates that implement them. Each call stands
behind one small function whose doc comment says what is taken for granted.
Statements that rest on BLAKE3 name the collision they rule out.
