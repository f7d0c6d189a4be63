# beamer_quickie

A small GTK tool for LaTeX Beamer files: it opens a `.tex` file, lists its
frames with the matching pages of the compiled PDF, and lets the user copy
a chosen set of frames back out as LaTeX.

- `src/` is the library, verified with Verus: reading a document into its
  preamble and its main, appendix and unused frames; frame labels; writing
  the chosen frames back; matching frames with PDF pages (from SyncTeX line
  numbers or from page labels); thumbnail file names; the frame titles the
  editor marks.
- `tests/` runs the library on concrete inputs.
- `app/` is the GTK program around it: windows, file and PDF reading,
  SyncTeX queries and thumbnail drawing.
