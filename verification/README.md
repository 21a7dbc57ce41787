# bisectrunk

A parallel, environment-aware, resumable engine for finding behavior changes
in Git history: it checks candidate commits out into detached worktrees, runs
shell hooks on them, classifies each by the `git bisect run` exit-code
protocol (or by comparing an artifact with a baseline), and searches the
history with parallel k-section bisection or a parallel scan.

## Layout

- `src/` is the verified library. Its functions carry contracts that Verus
  proves, covering the exit-code protocol, probe placement and interval
  narrowing, the bisect and worker-pool state machines, configuration
  precedence, scan selection, evaluation and pin layouts, artifact
  comparison, cache keys, and the Markdown report. Laws that relate several
  functions are public proof functions (`lemma_*`), for example the
  convergence bound of k-section search on monotone history. The calls
  into outside crates (humantime, regex, blake3, serde_json, similar) and a
  few std functions sit in small `#[verifier::external_body]` wrappers whose
  contracts are trusted, not proved; each one's doc comment says what it
  claims of the call.
- `tests/` runs the library on concrete values.
- `app/` is the `bisectrunk` command around the library: argument parsing,
  files, Git, hook processes, threads and terminal progress. It performs the
  work the library's decisions call for.

Verify with Verus from the crate root; build and test with Cargo.
