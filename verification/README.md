# pdf-form-core

Reading and selectively resetting the fields of a PDF AcroForm, verified with
Verus.

A reset gives the chosen fields their default value (`/DV`); a clear leaves
them empty, writing an explicit empty value where a missing one would let a
reader fall back to the default. Either way the widgets are redrawn to
match, and the result is written as an incremental update: the file's bytes
are kept as they were and only the objects that change are appended.

## Layout

| | |
| --- | --- |
| `src/object.rs` | PDF objects as plain values, with a mathematical view, and the dictionary operations. |
| `src/document.rs` | A document's objects, trailer and pages; lookup and dereferencing. |
| `src/form.rs` | Reading the field tree: terminal fields, inherited entries, widgets, pages. |
| `src/reset.rs` | Planning a reset as edits, applying them to a new revision, and writing it. |
| `src/laws.rs` | What holds of the library as a whole, proved over the models above. |
| `src/ids.rs`, `src/text.rs`, `src/names.rs` | Object ids as text, values as displayed, the names of PDF keys. |
| `src/bridge.rs` | The calls into lopdf, each behind a stated contract. |
| `app/` | The desktop shell and the command line: file I/O and the window's types. |

The tests under `tests/` run the library on documents built with lopdf.
