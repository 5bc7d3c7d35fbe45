# minigpt

A small GPT trained with a byte-pair tokenizer and a reverse-mode automatic
differentiation tape, written in Verus.

- `src/` is the verified library:
  - `dims`, `shape`, `laws`: extents, strides, broadcasting, multi-index
    walks, and the laws they keep;
  - `tokenizer`: byte-pair training and encoding over a linked sequence of
    tokens, with the text-keeping and decoding laws;
  - `tape*`: tensors as views into one data buffer, the operations that
    append to the tape, reductions, matrix products and backpropagation;
    the element type is any `Scalar`;
  - `gpt`: the transformer (embedding, attention, feed-forward, loss, Adam
    step, sampling probabilities, decoding);
  - `gpu`: the parameters and sizes of a batched matrix product kernel.
- `app/` is the program around it: arguments, reading the training text,
  random initialisation, sampling, the `f32` scalar, and the GPU device.
- `tests/` runs the library on concrete values.
