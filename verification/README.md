# lockbook

The Lockbook command line with a semantic search over the user's documents.

- `src/` is a Verus library. It holds what the commands decide: how a document is split
  into sections and chunks, which files are new or changed, how texts become token arrays,
  in which batches they are embedded, how hits are ranked and which are shown, what is
  downloaded and in what order, and what the commands on files ask and report. The
  functions state their results in their contracts, and the `law_` functions state what
  holds across functions.
- `app/` is the program around it: the command line, the account and its files, the ONNX
  sessions, the downloads, the index on disk, and all floating-point arithmetic.
- `tests/` runs the library on concrete values, with a real tokenizer.

The library trusts a few functions that it calls: `String::push`, `str::to_lowercase`,
`String::from_utf8_lossy` and `Path::file_stem` of the standard library, and of the
`tokenizers` crate those that encode a text and those that tell what a tokenizer is made
of. Each is declared once, with a comment on what is believed of it.

A tokenizer panics on some texts if its parts do not fit together. So its normalizer,
pre-tokenizer, added tokens, padding, post-processor and truncation are looked at first. A
tokenizer is refused unless they are of a form that takes any text. That leaves out some
that would take every text too, such as those with a regular expression of more than one
item. What the library asks is made anew from the tokenizer's parts, which changes nothing
for a tokenizer that was read from a file.
