# agg_gui

The editing logic of a rich-text widget toolkit, written in Verus with its
behaviour stated as contracts and proved.

## Layout

- `src/` — the verified library.
  - `model`, `style`, `align`, `position`, `runs`, `docview`: the document
    model (styled runs, blocks, documents, positions) and its mathematical
    view: a block is a sequence of styled bytes.
  - `edit`, `lines`, `text`: structural edits (typing, removing, splitting,
    merging, extracting and splicing fragments) on UTF-8 text.
  - `commands`: formatting commands and toolbar style summaries.
  - `editor`, `undo`, `nav`, `words`, `keys`, `pointer`, `rich_clipboard`,
    `picker`: the editing core with its time-coalesced undo history, caret
    navigation, key and pointer handling, the styled clipboard and the
    colour-picker session.
  - `numbering`, `toolbar`, `segments`, `controls`, `smart_aim`, `splitting`:
    list numbering, the toolbar roster, segmented-control selection, small
    control policies, decimal rounding and text splitting.
  - `laws`: properties that relate several operations (split then merge,
    insert then remove, cut then paste, copy then paste, cancelled previews,
    one undo step per settled change, newlines as block breaks, ...).
- `tests/` — tests of the library on concrete documents.
- `app/` — application glue that cannot be verified: floating-point colours
  and slider math, the process-wide clipboard slot and scroll-bar policy, and a
  shared handle a toolbar drives.

Frame times reach the undo history as whole milliseconds. Font sizes and
colour channels, which are floating point in an application,
are carried through the library as their `f64` / `f32` bit patterns.
