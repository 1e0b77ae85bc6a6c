# llamanyon

The core of an engine that runs language models from quantised files on modest machines,
written in Verus.

`src/` is the library. Everything in it is verified: each public function states what it
returns or changes, and the laws that hold across functions are public proof functions whose
names begin with `law_`. The exceptions are `Clock::start`, `Clock::nanos` and
`ThermalLSC::nanos`, which read the machine's clock and promise nothing of it. A function that
reads the clock itself says what holds for some time; its twin, whose name ends in `_at`, takes
the time and says exactly what it does.

- `gguf`: the model file format, its metadata and its tensor table
- `quant`: decoding of quantised blocks
- `kernels`: the integer side of products with quantised matrices, and a simulated vector unit
- `tensors`: layouts, tensors, and fixed-point softmax
- `engine`: the paged cache of keys and values, the course of a generation, drafts for
  speculative decoding, budgets, prefetching, calibration and scheduling
- `ace`: concepts, shapes, their components and barcodes, and the memory of their use
- `gpu`: shards, transfer slots and what device codes mean
- `server`: the circuit breaker and the queue of requests
- `halves`, `sorting`, `text`: number formats, ranking and text

A floating-point number is carried as its bit pattern, or as the exact integers that it is
computed from. `app/` holds what surrounds the library: files, devices, scripts, tasks, and
arithmetic on floating-point numbers.
