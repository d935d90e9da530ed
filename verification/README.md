# bpe_lm

A byte-pair tokenizer and the parts of a small language model that can be proved: cutting a
text into training examples, choosing the next token, generating step by step, and reading
the command line.

`src/` is a Verus library. Its contracts are stated over sequences, maps and multisets:

- `text`: white space, words, lines and numbers of texts;
- `pairs`, `vocabulary`, `agenda`, `frequency`: the collections that the tokenizer works on;
- `lexicon`, `learning`: the texts and rules of a tokenizer, and how they are learned;
- `merging`: how the rules are applied to a row of tokens;
- `tokenizer`: encoding, decoding and storing;
- `data`, `sampling`, `infer`, `model`, `training`, `cli`: examples and batches, the draw of
  a token, generation, sizes, and the command line.

Functions named `law_..` state what holds of the library as a whole, such as that decoding
undoes encoding.

`app/` is the program around it: it reads and writes files and runs the transformer, which
is built with burn. `tests/` holds the tests of the library.
