# gpu_observer

Verified core of a GPU observer for a language-model serving engine: which
requests share an engine step, which kernels a step launches, how long the
device is busy with them, and which request owns which row of a packed batch.

- `src/` is the library, written in Verus. Every executable function has a
  contract over mathematical models, and the laws that span functions stand
  beside them as public proof functions.
- `tests/` runs the library on concrete values.
- `app/` is ordinary Rust around it: command-line tools, the shared ring file,
  the C interface of the serving engine, the launch probe with its loader, and
  the live page.

What the library takes on trust is marked `external_body`: the capacity of a
`Vec` and the room made in one, UTF-8 validation, and the fields of JSON
documents as `serde_json` reads them.

Six analyses have no command in `app/`, because nothing there loads the semantic
trace or the device events that they start from: the join of graph replays with
cache writes, the join of CUPTI activities with cache writes, the CUPTI analysis
of full steps, the export of trace bundles, the join of instruction samples, and
the stream of sanitizer events. The library offers what they compute.
