# orl

Offline reinforcement learning for language models, with its logic verified in
[Verus](https://github.com/verus-lang/verus).

| Place | Contents |
|:------|:---------|
| `src/` | the verified library |
| `tests/` | its tests |
| `app/` | the command line: files, network, tensors and floating-point arithmetic |

The library:

- `ingest` reads experiments from log directories that were handed over as plain values;
  `trajectory` holds what was read.
- `tokenize`, `preference`, `replay_buffer` and `batch` turn steps into token batches;
  `pipeline` tells which tokenizers can answer on every text.
- `targets` says which predictions of a batch count.
- `trainer`, `scheduler`, `eval`, `checkpoint` and `paged_adamw` order a training run;
  `dpo`, `rw_sft`, `ilql` and `value_head` hold what is particular to an algorithm.
- `loader` and `inspect` deal with the files and the tensors of a model; `model` puts it together
  and lets it read.
- `serve` answers chat requests.
- `double`, `grid` and `text` are what the others are made of. A double is carried by its bit
  pattern: the library compares doubles and does no arithmetic on them.
