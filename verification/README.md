# scry_backend

A verified back end for the Scry instruction set, a machine whose instructions
take their operands from queues and send their results a number of instructions
ahead.

Lowered code (`vcode`) is turned into a graph of basic blocks (`cfg`), which a
row of passes (`passes`) rewrites: values become explicit parameters, frames are
laid out, types are inferred, operands are duplicated, reordered and given
references, jumps are widened until they reach. The blocks are then laid out
(`layout`, `emission`), emitted (`emit`) and their labels resolved (`assemble`).
`backend` puts it all together.

Each pass has a mathematical description of its result, and its code is proved to
compute exactly that. What follows from the descriptions is stated as proof
functions beside them: that every reference leads to its consumer, that operands
arrive in order, that settled jumps are in reach, that a layout places every
block once.

Code that breaks what a pass relies on is refused with an error rather than
compiled.

`app` holds what stands around the library: code as bytes, by an encoding that
the caller provides.
