# cefact_units

Reading the UN/CEFACT Recommendation No. 20 unit-of-measure codes
(Revision 17, 2021) from the `rec20.xlsx` workbook, with contracts proved by
Verus.

Layout:

- `src/text.rs` — character classes, `trim`, ASCII case mapping, decimal
  formatting of integers.
- `src/naming.rs` — enum variant names, code variant names, disambiguating
  suffixes and test names derived from unit names and codes (upper camel case
  by `heck`), and the assignment of pairwise distinct names.
- `src/normalize.rs` — ohm-sign replacement and NFC normalisation of cell
  text (`unicode-normalization`).
- `src/sheet.rs` — worksheet cells, their text, and row status.
- `src/records.rs` — `parse`: the unit records of the Annex I and the
  Annex II & Annex III worksheets, with the laws that each active code is
  kept exactly once, that Annex I comes first, that each record carries the
  fields of the first active row with its code, and that variant names are
  unique.
- `src/catalog.rs` — `UnitTable`, `UnitCode`, `UnitOfMeasure`: lookup by
  code (exact or ignoring ASCII case), parsing with `UnknownCode` errors, and
  the round-trip laws of lookup.
- `app/lib.rs` — the workbook reading (`calamine`) and the emission of the
  `UnitCode` / `UnitOfMeasure` enums as tokens (`quote`), on top of the
  library.
