# mus_search

TF-IDF indexing and search over a folder of PDF and text files.

- `src/` is the verified library: the tokenizer (`lexer`), the term tables
  (`strmap`, `model`), building the index (`index`), the integer side of
  ranking (`search`), locating a hit's source page (`reverse_search`), the
  command line (`command`), string helpers (`text`), the character classes
  and the stemmer behind trusted wrappers (`unicode`, `stem`), and proved
  properties that span them (`laws`).
- `app/` is the program around it: walking the data folder, reading files
  and PDFs, the conversion service, the JSON index files, the `f32` scores,
  the terminal loop and the web server.
