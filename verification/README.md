# rustynet (verified library)

A character-level MLP language model built from scalar autograd, split into a verified library
and an ordinary program around it.

`src/` (verified with Verus):

- `engine` — the computation graph: per node its children, local derivatives, value and
  gradient (of any type), the depth-first topological order, and the backward pass that walks
  it in reverse applying a caller-supplied chain-rule update once per edge.
- `tokenizer` — conversion between characters and token ids with a reserved BOS id.
- `text` — splitting a dataset text into trimmed, non-empty lines.
- `dataset` — shuffling the documents and building the tokenizer; sliding-window training
  examples.
- `sampler` — the decisions of autoregressive name sampling.

`app/` (plain Rust): the floating-point parts (the `Value` arithmetic and the multiply-add
handed to the backward pass, layers,
normalization, softmax cross-entropy, Adam, the `NameMLP` model), file reading, the training
loop and printing.
