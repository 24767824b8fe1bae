# gemma4_text

Plans for running the Gemma 4 text decoder, verified with Verus.

The library decides everything about a run that is not arithmetic on tensors:
which weights a configuration needs and under which names, how each layer attends
and caches, which layers share keys and values, which positions a token may see,
and which tensor operations compute the logits of the last token. A run records
its operations on a tape, and every recorded tensor carries, as ghost state, the
expression that it stands for. Contracts state that expression.

## Layout

| Where | What |
| --- | --- |
| `src/term.rs`, `src/shape.rs`, `src/parts.rs`, `src/tape.rs` | tensor expressions, their extents and parts, the tape |
| `src/config.rs`, `src/vars.rs`, `src/manifest.rs` | configuration, names of weights, what is loaded |
| `src/norm.rs`, `src/rotary.rs`, `src/mlp.rs`, `src/attention.rs`, `src/layer.rs` | the blocks of a layer |
| `src/mask.rs` | causal and sliding masks |
| `src/model.rs`, `src/pass.rs` | the decoder, and passes over tokens or embeddings |
| `src/sharing.rs`, `src/caches.rs` | laws of shared keys and values and of caches |
| `src/sizes.rs`, `src/fitting.rs`, `src/sound.rs` | the extents of all that a pass records fit |
| `src/depend.rs`, `src/causal.rs` | no position depends on a later one |
| `src/reading.rs`, `src/blockwise.rs` | what stands at one position of a tensor, behind each block |
| `src/chunks.rs`, `src/feeding.rs` | a text fed in parts gives what it gives when fed whole |
| `src/relative.rs` | attention rests on the distance of positions alone |
| `src/shards.rs`, `src/device.rs`, `src/generation.rs` | shards of a checkpoint, the device, the loop of a generation |
| `app/` | the executor that replays tapes on tensors, and the hub and Python edges |
| `tests/` | exact recordings, and passes carried out in plain numbers |

Functions named `law_*` are the properties that the library states of itself.
