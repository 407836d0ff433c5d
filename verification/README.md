# dwm

A dynamic tiling window manager for X whose decision logic is a library
verified with Verus.

## Layout

- `src/` is the verified library. The window manager's state is `model::Wm`,
  viewed as `model::WmView`; every operation states how it changes that view
  and, exactly, which requests to the X server it makes (`engine::Effect`,
  in order). The X server is never called from the library: the program
  performs the requests.
  - `engine`: resizing under size hints, the tile and monocle layouts,
    showing and hiding, restacking, arranging.
  - `clients`, `membership`, `seqs`: client lists and focus stacks.
  - `focus`, `stack`, `tags`, `commands`, `transfer`, `drag`: what key and
    button bindings do.
  - `manage`, `lifecycle`, `swallow`, `rules`, `hints`: windows coming and
    going, terminals swallowing the windows they start.
  - `events`, `geom`, `window`, `input`: X events, screens and monitors,
    key and button matching.
  - `bar`, `text`, `utf8`: what the status bar shows and how text is laid out
    across fonts (the font lookups are answered by the program).
  - `procs`, `xres`: the process ancestry used for swallowing.
  - `laws`: properties that span several operations (toggling twice,
    viewing back, attaching and detaching, and more).
- `tests/`: scenarios run against the compiled library.
- `app/`: the program around the library: the Xlib connection, event loop,
  drawing with Xft, reading window properties, spawning commands.
