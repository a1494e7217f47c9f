# kubectl-view-rngd

A kubectl plugin that shows, per node of a Kubernetes cluster, how many
`furiosa.ai/rngd` devices it has, how many are allocated, and to which pods.
Allocation is read from device-plugin data (node capacity, container limits),
from DRA data (resource slices and resource claims of a driver), or from both,
each node from the source that serves it.

## Layout

- `src/` is the library, verified with Verus:
  - `aggregate.rs`, `aggregate_dra.rs`: the two aggregations, each with an exact
    contract over a spec function, and the automatic mode's node split;
  - `pipeline.rs`: the automatic mode's decisions (fall back, fail, or use DRA)
    and the merge of the two tables;
  - `render.rs`: the table text, drawn with `comfy_table`;
  - `error.rs`, `text.rs`, `sorting.rs`, `search.rs`, `cluster.rs`, `cli.rs`:
    errors and their messages, text helpers and integer parsing, a stable sort,
    first-index search, the plain values read from cluster objects, the options;
  - `properties.rs`, `dra_properties.rs`, `dra_pods.rs`, `dra_devices.rs`,
    `dra_counts.rs`, `dra_names.rs`, `dra_totals.rs`, `invariance.rs`,
    `auto_properties.rs`: the laws of the tables, as public proof functions
    named `law_*`.
- `app/` is the command: argument parsing, the Kubernetes client, listing
  objects and reading plain values from them, and the loop of the modes.
- `tests/` runs the library on concrete values.

## Design notes

- Nodes, pools, per-claim counts and allocated devices are kept in `Vec`s, found by
  first-index search (`search::first_index`), rather than in hash maps keyed by
  strings: with `String` keys vstd proves nothing of a `HashMap`'s contents, while a
  list's contents are fully specified. That each name or key occurs once is proved by
  the laws (`dra_distinct`, `keys_unique`, `nodes_unique`, `allocated_distinct`).
- With `show_devices`, a pod's device names are listed in the order of `device_le`:
  the order that comparing their short forms as `u64` numbers, and otherwise as text,
  gives, made total where that comparison is not.
