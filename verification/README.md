# chocolate

An interpreter for the Chocolate programming language, verified with Verus.

A Chocolate program is a grid of command characters. Connected areas of one character
form blocks. Execution moves from block to block, following a direction pointer and a
codel chooser, and each block it enters runs its command on a stack of 64-bit integers.

## Layout

- `src/grid.rs`: grids of cells and their reading and writing.
- `src/source.rs`: reading the program text into a grid of command bytes.
- `src/code.rs`: splitting the grid into blocks and finding each block's exits.
- `src/machine.rs`: the machine model, one step of execution, and whole runs.
- `src/state.rs`: a program under step-by-step execution, for interactive front ends.
- `src/error.rs`: the errors and their messages.
- `src/laws.rs`: properties proved of every program and state.
- `tests/`: tests of the library on concrete programs.
- `app/`: the command-line interpreter and the WebAssembly interface.

Each executable function in `src/` has a contract over the mathematical model, and Verus
proves that the code meets it.
