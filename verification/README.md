# memory_analyser

Walks the memory of a process, as recorded in a Linux ELF core dump, starting from
chosen variables, and attributes the memory it reaches to the paths through the
program's data structures (in the manner of `du`), counting the instances of top-level
types and of enum variants.

The library (`src/`) is verified with Verus:

- `core_dump`, `elf_input`, `file_path`: loading the dump from its program headers and
  notes (parsed with the `elf` crate), merging the mapped files named by paths that name
  the same file, memory reads, and the symbols and link-time base of a debug file;
- `dwarf`, `debug_info`, `debug_query`: the debug-information model built from DWARF
  entries, and the questions asked of it (sizes, names, symbols, variables);
- `visit_helpers`, `type_handlers`, `visit`: paths, field lookup, recognisers of standard
  containers and smart pointers, and the walk itself;
- `usage`: the bitmap of claimed memory and the usage tallies;
- `frames`: the frame rules of the call-frame information, stepping to a caller's
  registers, and answering what a location expression's evaluation asks for;
- `render`: text renderings;
- `report`: the order of the report's entries (by count, then by name);
- `bytes`, `text`, `named`: small helpers.

The program (`app/`) does the input and output: it reads the dump and the mapped files,
reads the mapped files' DWARF entries and call-frame tables (with `gimli`)
and hands them to the library as plain records, runs `gimli`'s evaluator of location
expressions, walks the stack of the first thread (the library decides which variables
each frame holds and when the walk may stop) and writes the report.
