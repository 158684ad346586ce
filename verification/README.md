# project_harmonia

The rules of a life simulation game, written in Verus and proved against
their contracts.

- `src/` is the verified library:
  - `wall/`: the connections between the walls of a lot (and the laws they
    keep: connections stay symmetric and current), the apertures cut into a
    wall, kept sorted by distance, and the index buffers of wall meshes.
  - `task`: body-part groups of tasks, which queued task starts next,
    cancellation, and request checks.
  - `settings`: control bindings, their defaults and the binding dialog.
  - `widget`, `modal`, `menu`, `family`: state machines of the UI widgets,
    the stack of modal windows, and what each menu and dialog button does.
- `app/` is the game around it: Bevy systems, egui windows, files, the
  network, and all floating-point geometry. It gathers plain values, asks the
  library, and applies the answer.
- `tests/` run the library on concrete values.

`smallvec` is called from the library through trusted wrappers whose
contracts are stated in `src/modal.rs`.
