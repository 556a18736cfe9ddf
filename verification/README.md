# Aether

A compute runtime for tensors and an inference engine for language models,
verified with Verus.

Operations form a graph. The graph is compiled — identities simplified, common
subexpressions merged, dead nodes removed, constants folded, weights laid out —
and computed by a backend. On a graphics device, elementwise chains become one
shader. On top stand a model of the LLaMA family, a server with an
OpenAI-compatible interface and a command line.

## Layout

`src/` is the library. Every function in it is verified against its contract.

| Module | What it holds |
|--------|---------------|
| `shape`, `tensor`, `op`, `text`, `error`, `named` | data and texts |
| `float`, `sym` | numbers as bit patterns, and what operations compute as expressions |
| `kernels`, `blas`, `backend` | the operations of the host |
| `dag`, `graph`, `items`, `eval` | graphs, and what running a node yields |
| `compiler` | the passes, and that they keep results |
| `codegen`, `gpu` | shaders, pipelines and kernel launches |
| `llama` | the model: weights, prefill, quantized blocks, scores |
| `server`, `cli`, `c_api` | requests, streams, scenarios and the rules of the C interface |
| `gradcheck` | gradients against finite differences |

`tests/` runs the library on concrete values, with the host's arithmetic.

`app/` is ordinary Rust around the library: the processor's arithmetic, the
graphics device through `wgpu`, the server through `axum`, the command line and
the C interface.

## Numbers

Verus does not compute with floating-point numbers, so the library holds them as
bit patterns and leaves arithmetic to a `Float` that the caller provides.
Comparison, sign and maximum are computed on the bits. What an operation yields
is stated as an expression (`Fx`) of the operands, and a result is right when it
comes out of that expression by the calls of the `Float` (`computes`). This
fixes which numbers are combined, how and in which order.

## What is taken on trust

Graphs are kept by `petgraph` (`src/dag.rs`), digests come from `sha2`
(`src/codegen/ast.rs`), and uniform blocks are turned into bytes by `bytemuck`
(`src/gpu/data.rs`). The contracts of those calls are stated beside them and not
proved.
