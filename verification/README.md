# vigil

Terminal viewer for `.todo.md` plan files, with its logic verified by Verus.

- `src/` is the library, verified: the plan format (`parser`), the order in
  which a directory's plans are listed (`directory`), the progress bar and
  rules (`term`), the layout of one plan (`watch_view`) and of the list of
  plans (`list_view`), on top of character-level helpers (`text`).
- `app/` is the program around it: reading files and directories, the
  terminal (raw mode, key events, drawing with crossterm) and the two event
  loops, which hand keys to the library and draw what it lays out.
- `tests/` runs the library on concrete plans.

Contracts are stated over character sequences (`Seq<char>`); where the
terminal code cuts strings by bytes, the library follows the UTF-8 width of
each character and states when such a cut falls inside a character.

The number of bar cells that a plan's progress fills is computed in `f32`
arithmetic, which stays in `app/`; the library builds the bar from that
count.
