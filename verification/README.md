# bsl_spreadsheet

The spreadsheet document of the BSL runtime (`ТабличныйДокумент`), verified
with Verus: the document model, its MXL file format (writing and reading),
the TXT and XLSX exports, addressing of areas, template parameters and the
properties the language reads and sets.

Layout:

- `src/` — the verified library. `model.rs` holds the document; `mxl_write.rs`,
  `mxl_read.rs` and `lexer.rs` the MXL format; `xlsx*.rs` the workbook
  export, which builds the zip archive through the `zip` crate; `bridge.rs`,
  `props.rs`, `params.rs` and `address.rs` what the language calls;
  `laws.rs` and `readback.rs` the proved properties that span functions,
  such as what the reader makes of what the writer puts down.
- `app/` — the host side: file reading and writing, and the calls of the
  runtime into the library.
- `tests/` — tests on concrete values.

Not in this crate:

- The semantic analysis of BSL programs (name resolution and the checks
  built on it). It works on the syntax tree of the BSL parser and decides
  through the runtime's registry of builtins, neither of which this crate
  depends on; `sema.rs` holds only its error type.
- PDF output. The page layout and the PDF writer are separate components;
  `write` answers the PDF file type with an error.
- Templates in XML (`from_template_xml`).

Page margins are held in hundredths of a millimetre, the unit the MXL file
stores them in, so a margin is kept to two decimals.
