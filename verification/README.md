# mvs

Offline questions about the history of nixpkgs: which revisions satisfy a set of
version constraints at once, and which revisions a lock file of pins should name.

`src/` is the library. Every function in it is verified with Verus, and nothing in
it is trusted.

| module | what it holds |
|---|---|
| `constraint`, `version` | `attr@version` constraints, matched component by component, and the order of versions |
| `index` | the revisions by offset, and the runs of every version of every attribute |
| `span`, `resolve` | stretches of offsets, where a constraint is satisfied, what a revision shipped |
| `solve` | every revision that satisfies all of several constraints, or why there is none |
| `plan`, `plan_laws` | as few revisions as a set of decided versions allows: greedy set cover |
| `pin` | the version a constraint resolves to, and pins planned together |
| `lock`, `edit`, `status`, `lock_laws` | the lock, its changes, how far behind its pins are, and what holds throughout |
| `date`, `text`, `map`, `output`, `error`, `cli` | dates, texts, an ordered map, wording, failures, switches |

`app/` is the `mvs` program around it: arguments, the index file, the lock file and
printing. It has the commands `solve` and `lock`. The commands `query`, `run`, `shell`,
`path`, `size`, `deps`, `rdeps` and `identify` are left out: they need release channels,
store paths and a package runner, which this index does not hold. The library's `execute`
and `speed` are the switches of such a runner.

The index file is JSON: `revisionCount`, `revisions` (each with `rev`, `date` and, once it can be fetched, `narHash`), and `attrs`, which maps each
attribute and version to its runs of offsets, `[first, last]` or a list of such.
A run that is still open ends in `null`.
