# mrubyedge (verified core)

The logic of an mruby bytecode runtime, written in Verus and proved against
its contracts. No interpreter is part of this crate, in `src/` or in
`app/`: its object heap, call frames and the loop that drives them are left
out, and the decisions such an interpreter makes stand here as functions
from plain values to plain values, for it to call.

- `rite`: the RITE binary loader (header, IREP, LVAR and DBG sections).
- `ivar`: the open-addressing instance-variable table with FNV-1a hashes.
- `numeric`, `value`: Integer methods, floored modulo, the send fast path
  and instruction operand decoding.
- `text`, `format`: String methods and the printf-style formatter.
- `radix`: `String#hex`, `String#oct` and `Kernel#Integer` on text, over
  the rules of `i64::from_str_radix`.
- `hierarchy`: class comparisons over a numbered superclass table.
- `object`: instance_variable_get / _set / _defined?, with immediates
  refusing to store anything.
- `hash`: the Hash methods' lookups (`fetch`, `key?`, `value?`, `dig`,
  `values_at`, `merge`) from the `==` answers of the stored keys.
- `dispatch`: method lookup chains, send resolution with `method_missing`
  and the send-site cache, and the method `super` reaches.
- `interp`: one instruction (loads, moves, jumps, integer arithmetic and
  comparison fast paths) over a frame of plain register values.
- `unwind`: the main loop's choices: the next instruction, the rescue
  handler of a raise, frame popping and where a `break` lands.
- `array`, `range`, `compare`: Array, Range, Comparable and Enumerable
  methods as layouts and decisions over plain values.
- `memory`: SharedMemory reads and writes.

`app/` holds what stays in floating point (float fields of `format`, the
float forms of Range#size, Range#cover? and Float#%). `tests/` runs the
kernels on concrete values.
