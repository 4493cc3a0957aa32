# scriptbox

Shells read a script while they run it, so an edit to the file changes what runs.
scriptbox reads the whole script when it is invoked, makes an immutable copy, and
hands the copy to the real interpreter.

The library holds every decision and is verified with Verus; it does no I/O. The
program around it reads, writes and runs.

- `src/` is the library.
  - `text`: characters, trimming, lines, words, numbers.
  - `frontmatter`, `checksum`, `pin`: the `# /// scriptbox` block, and pins over
    everything outside it.
  - `config`, `shebang`, `interpreter`, `run`, `cli`: the switches, the interpreter,
    the bytes it is given, and the command line.
  - `loader`, `cache`: the copies and the snapshots that a tree of scripts shares.
  - `shell`, `parser`, `expansions`, `substitutions`, `sites`: the simple commands
    of a shell program, by `brush-parser`, what a shell expands of its words, the
    programs that it runs for that, and the commands that run or read other scripts.
  - `subscripts`, `rewrite`, `freezer`: what is done about those scripts. The walk
    over the tree is a machine that says what it needs next and is told what came
    of it.
- `app/` is the program.
- `tests/` are the tests of the library.

Functions whose names start with `law_` state what holds of the library as a
whole: that pasting a pin is accepted, that lines keep their numbers, that no file
of a tree is loaded twice, and so on.
