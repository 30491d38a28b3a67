# n0xis_core

Pure analysis of compiled programs, verified with Verus. Passes work on plain
values: memory as mapped bytes, decoded instructions, blocks in static single
assignment form, tables of symbols. Nothing in the library reads a file or a
process.

- `src/` is the verified library. Every function states what it returns, and
  public proof functions state the laws that relate them.
- `tests/` runs the library on concrete values.
- `app/` is ordinary Rust around it: floating-point arithmetic, displayable errors
  and serializable results.

Control flow lives in `ir`, `dom` and `dot`; static single assignment in `ssa`,
`micro` and `coalesce`; emulation in `emulate`, `memory`, `intrinsics` and `bits`;
readers of images in `eh`, `aot`, `native`, `discover`, `klass`, `icalls` and
`bindings`; classes in `classlayout` and `devirt`; pseudo-code in `decomp`,
`pipeline` and `deobfuscate`; text in `text`, `diff`, `gamegrep` and `demangle`; scanning in `aob`,
`dissect`, `decode`, `aslr` and `constident`. `sorted` and `order` hold the
collections and the sorting that the others share.
