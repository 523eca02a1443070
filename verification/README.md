# docray

Document extraction: Word packages (`.docx`, `.docm`) are read into a flow
model, and flow and paged documents are rendered as JSON, a line-oriented
"lean" text and Markdown.

- `src/` is the library, verified with Verus. It holds the Office Open XML
  reading (ZIP parts, XML trees, relationships, styles, numbering, themes,
  markup-compatibility resolution), the Word story reader, and the lean and
  Markdown renderers, each stated by contracts over spec functions.
- `app/` is the command-line program around it: argument handling, file
  reading, JSON output, and the PDF backend, whose page geometry is
  floating point.
- `tests/` runs the library on concrete documents.
