# m1-project

Structured, validated, surgical edits to a MoTeC M1 `Project.m1prj`, as a
verified library and a thin command line around it.

- `src/` is the library, verified with Verus. The project text is parsed with
  `roxmltree` (behind the trusted `xml::roxml_parse`, whose result the
  contracts name `roxml_document`) into a flat node model whose offsets are
  character positions; every edit is then a function from the text and that
  model to a new text, specified exactly over `Seq<char>`. The only other
  trusted item is `text::push_char` (`String::push`).
  - `xml`, `text`, `utf8pos`: the document model and character helpers.
  - `props`, `edits`: the `<Props>`/`<Default>`/`<List.UserTags>` property
    edits and their validators.
  - `structure`: create, delete and rename, with the `<Organisation>` view.
  - `query`: the component inventory, scripts, rates, security groups and the
    group-relative path rules.
  - `validate`: the structural checks and module-aware tag rules.
  - `format`: file-format report and the 10108 ↔ 10109 conversion.
  - `report`, `json`: what the command line prints and decides.
  - `sort`: the stable insertion sort the reports are ordered with.
- `app/main.rs` reads and writes files, parses arguments and prints.
- `tests/` runs the library on small projects.
