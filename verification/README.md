# xn-moshi

The Moshi model family, verified with Verus: the streaming audio codec, the residual vector
quantizer, the streaming transformers, the speech recognizer and the speech-to-speech model.

A tensor of the library is a description: its shape, and the operation with its operands whose
result it is. Loading a model, running it, stepping it chunk by chunk and resetting a lane of a
batch are functions on such descriptions with exact contracts: they say which description comes
out, what is kept between steps, and which error is given on which input.

* `src/` holds the library.
* `app/` evaluates descriptions on the backends of `xn`, reads checkpoints and configurations, and
  samples tokens.
* `tests/` runs the library, and compares shapes and numbers with `xn` on the CPU.

What holds over many steps is proved besides:

* A causal convolution fed chunk by chunk computes every output of a lane from the same samples as on
  the whole input (`timeline`), and a transposed one sums the same terms (`overlap`): however the
  input is cut, whichever steps leave the lane out, whatever the other lanes hold.
* So do the encoder (`stepwise`) and the decoder (`decoding`) as a whole, and a lane that is reset
  leaves the others alone (`resets`).
* The encoder puts out one latent frame for as many samples as the product of its ratios says,
  however they are cut, and the decoder undoes the rate (`rates`).
* Each quantizer reads back the codes that it gave, and fewer codebooks give the first codes
  (`codes`).
* In exact arithmetic a code is that of a nearest vector, codes that are decoded and encoded again
  are found again, samples at temperature zero are greedy, and mixed layers are summed by their
  weights (`exact`). What a residual quantizer decodes and what its last codebook leaves over add up
  to what was encoded (`residual`).
* Both layouts of the weights of a cross-attention compute the same (`layouts`).
* No text token of the recognizer is lost, words end once, at times that increase (`transcript`).
  Audio tokens of several steps give one result for each, in order, and words are of active lanes
  only (`session`).
* Active lanes advance and the others stay, and a step attends to the positions of its lane that its
  context reaches back to (`kv_cache`, `transformer`).
* The codebooks of a frame line up by their delays, and a whole step adds one token of each codebook
  to every lane (`s2s`).
