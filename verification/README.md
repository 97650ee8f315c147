# solana_sbpf code generation, verified

Code generation for a threaded eBPF interpreter and a template-stitching
("token threading") compiler, written in Verus.

- `src/codegen/mod.rs`: `Template`, a fixed-capacity assembling buffer.
- `src/codegen/x64.rs`: the x86-64 instructions chosen for every eBPF opcode,
  the layout of the 64-byte steps of the interpreter's step table, and the
  generator that writes steps, labels and relocations into the table.
- `src/codegen/labels.rs`: the `dynasmrt` label and relocation registries, as
  trusted items.
- `src/token_threading.rs`: scanning a template table for placeholders, and
  compiling a program into positions and patched code.
- `src/rng.rs`: the `rand` generators the compiler draws from, as trusted items.
- `src/ebpf.rs`: opcode constants.
- `app/`: assembling the chosen instructions with `dynasm`, the step table in
  executable memory, and entering it.
