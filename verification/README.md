# artzain

A small orchestrator for prebuilt binaries. One `artzain.toml` names the apps to run and how many
replicas of each; `artzain up` keeps the processes as the file asks: it starts them, restarts
crashed ones with growing delays, probes them over HTTP, rolls them when the file changes, and
stops them in order.

## Layout

- `src/` decides. It is written in Verus: every function states what it returns in a contract, and
  the contracts are proved, but for those of four calls into code that Verus does not read, which
  are believed: `read_table` (the `toml` crate) and `to_upper` in `vars`, `lossy_text` in `probe`,
  and `String::push` in `text`. It reads no clock, opens no file and starts no process; what was found
  out about the outside is handed in, and what is to be done about it is handed back.
- `app/` does. It starts and signals processes, opens sockets, reads and writes files, and calls
  the library in between.
- `tests/` runs the library on concrete values, and a whole cluster on processes that exist only
  in the test.

## The library

| module | what it decides |
|---|---|
| `manifest`, `validate` | what a manifest holds, and whether it is sound |
| `vars` | `${name}` in a manifest's text |
| `graph` | start order, and which apps a selection pulls in |
| `env`, `fingerprint` | an instance's environment, and when a change means that it is replaced |
| `fleet` | one instance: stopping, exiting, backing off |
| `slots` | the places that are to be filled, and the ports for replacements |
| `reconcile`, `tick` | the state of the loop, and one tick of it |
| `scale`, `roll`, `spawn` | retiring what is not wanted, replacing what is stale, filling the rest |
| `health`, `checks`, `probe` | probes and checks: what is due, what is sent, what an answer means |
| `teardown`, `reclaim` | stopping everything, and what a previous owner left behind |
| `snapshot`, `state`, `report` | what the status shows |
| `lock`, `logs`, `process`, `systemd`, `paths` | the rules around files, logs, processes and units |
| `fixture` | a small server to try a cluster with |
| `text`, `order` | texts and ordered sets of names |

What holds of several functions together is stated as proof functions whose names begin with
`law_`: that a roll never takes more of an app than may be missing, that a surging roll leaves no
place without a ready instance, that dependents stop before what they depend on, and so on.
