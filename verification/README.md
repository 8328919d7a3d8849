# exa

An emulator for the EXA virtual machine of EXAPUNKS and its Redshift
handheld, written in Verus: each function of the library carries a contract,
and Verus proves the code against it.

- `src/parse`: the preprocessor (whitespace, comments, `@rep` macros) and the
  parser of EXA scripts into instructions.
- `src/vm`: hosts, links, registers, files and message buses; EXAs and the
  semantics of every instruction; the VM's cycle (cleanup, collisions, KILLs,
  the run of the EXAs, TEST MRD); the Redshift's buttons, screen and sound.
- `src/image`: Redshift program images: the PNG's subpixels, and the
  checksummed zlib stream hidden in their low bits.
- `src/random.rs`: the random draws, from `fastrand`.
- `app/`: the program around the library: reading the file, the frame loop,
  the floating-point sound voices, console output.
- `tests/`: the VM's behaviour cycle by cycle, the parser, images, hardware.

The laws of the library are public proof functions whose names begin with
`law_`, and clauses of the contracts of the functions they are about (such as
`VM::run_cycle`, which keeps the EXAs alive at its start, in order).
