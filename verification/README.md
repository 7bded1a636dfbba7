# grove

A featherweight command-line version control tool. A project is a list of
files and folders on your machine; a save copies them into a snapshot, which
can be restored later. Snapshots are stored flat (every item at the top, under
its own name, repeats numbered `name_2.ext`, `name_3.ext`, ...) or as a
labyrinth (every item under its path relative to the folder all items share).
After 99 saves a project's snapshots move into chapters, up to 99 of them.

## Layout

- `src/` is the library, proved against its contracts. It holds every decision the
  programs make: what each input line on each screen asks for, how names are
  cleaned, how snapshots are numbered and named, where each item is stored and
  restored to, when chapters open, and how the installer and the uninstaller
  change the shell profile and the Windows `PATH`. Its contracts state the
  results exactly, and its `lemma_*` proof functions state the laws that hold
  across calls (for example that removing Grove's folder from a `PATH` undoes
  adding it, and that a snapshot records every item that was there to copy).
- `app/` holds the programs around it: `grove` itself, its installer and its
  uninstaller (one executable, chosen by the name it is started under). It does
  the terminal and file-system work, the JSON settings, file dialogs and the
  Windows registry.
- `tests/` runs the library on concrete values.
