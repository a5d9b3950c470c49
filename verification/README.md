# h3_hrx

The host side of MiniMax H3 inference on an AMD GPU, with what it computes proved in Verus.

`src/` computes the pipeline's plans: which rows a packed sequence has and which class each carries, which bytes of
a checkpoint a device tensor is made of, which kernels a transformer stack is built from and how each is
configured, which bytes every launch may touch, in which order a denoising run goes, how a clip that is cut into
chunks is decoded in tiles and put together again, and what every entry point of the C interface answers. It talks
to no device, file or network, and it holds no floating point: where numbers are mixed, a closure says how, and
what is proved is which numbers meet and where they land. What was measured, when a step may be cached and where
a clip is cut come from outside.

`app/` is the program around it: the GPU runtime's C interface, the mapped checkpoints, the model hub, the
environment, the floating point, and the C ABI.

`tests/` runs the library on concrete values.

| module | what it decides |
| --- | --- |
| `checkpoint`, `weights` | safetensors headers, and recipes from tensors to device bytes |
| `compile`, `dispatch`, `stack` | kernel configurations, launches, and the transformer stack they make up |
| `layout`, `rope`, `conditioning`, `sampler`, `noise` | the packed sequence and the tables and samplers over it |
| `dit`, `vvae`, `vision` | the denoising run, the video decoder and the vision tower, operation by operation |
| `tiles` | how a frame is cut into overlapping tiles and blended |
| `tokenizer`, `vocabulary`, `charsmap`, `json` | a prompt's ids, and which vocabularies are read and encoded with |
| `models`, `session`, `capi` | where checkpoints are, what a request is, and the C interface's rules |
| `hrx`, `model`, `names`, `text`, `bytes`, `radix`, `error` | what the others share |
