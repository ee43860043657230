# zh_manhua

Rules of two Chinese comic catalogues (kxmanhua.com and nnhanman.xyz) for the
Aidoku reader, written in Verus and proved against their contracts.

- `src/text.rs`: searching, splitting, replacing, trimming, ASCII case mapping
  and decimal numerals on character sequences, each with a specification.
- `src/model.rs`: comics, chapters, pages, search filters and their views.
- `src/kxmanhua.rs`, `src/nnhanman.rs`: the addresses of each catalogue's
  pages and what the values read from those pages become; each ends with the
  laws proved of it (ids free of `/`, absolute addresses, chapter numbering,
  distinct chapters, page order, a chapter's pages asked at its address).
- `app/`: the Aidoku entry points: requests, HTML selection and conversion to
  and from Aidoku's types.
- `tests/`: examples of every function and law.
