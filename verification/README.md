# Polka

Plugins for the Rust port of markdown-it, with their logic verified by Verus:

| Rule        | Syntax                   | What it does                              |
| ----------- | ------------------------ | ----------------------------------------- |
| `icon`      | `:set-name:`             | Inline SVG icons read from icon folders   |
| `span`      | `\|text\|`               | Inline spans                              |
| `sup_sub`   | `^sup^` / `~sub~`        | Superscript and subscript                 |
| `attrs`     | `{ #id .class key=val }` | Djot-style inline and block attributes    |
| `validator` |                          | Checks the HTML embedded in the document  |

## Layout

- `src/` is the verified library. It works on plain values: the attribute
  passes on a small tree type (`attrs::AstNode`), the Djot attribute parser
  (`jotdown_attr`), the icon shortcode scanner, icon names and file
  candidates, SVG comment stripping, attribute merging and the rewrite of an
  icon's XML events (`icon`), and the HTML validator's fragment scan, token
  sink, tag-balance check, ordering and report (`rules::html`). Calls into
  `indexmap`, `quick-xml`, `html5ever` and markdown-it's source map go
  through small trusted functions whose contracts are stated next to them.
- `app/` connects the library to markdown-it: rule registration, node types
  and rendering, walks over the syntax tree, reading icon files and printing
  diagnostics.
- `tests/` runs the library directly and through markdown-it.
