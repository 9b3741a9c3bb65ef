# rwkv_router

A smart router for language-model requests. Every request is sorted into one of
four complexity tiers, R0 to R3, by rules, by a small classifier and by a
post-processing rule stack. The classifier improves itself from labelled
traffic: captured samples are used to fine-tune its head, and a new head is only
deployed where it holds its accuracy on a fixed evaluation pack.

`src/` is the library, written in Verus. Everything in it carries a contract
that is proved, down to the arithmetic of the perceptron: single-precision
numbers are bit patterns (`single`), and each operation is proved to round as
IEEE 754 says.

| module | what it holds |
| --- | --- |
| `tier`, `rules`, `config`, `postprocess` | tiers, acknowledgments, parameters, the rule stack |
| `engine`, `router`, `session` | the classifier's interface, sticky tiers, the assembled session |
| `head`, `mlp`, `adam`, `training`, `finetune` | the classification head and its fine-tuning |
| `distribution`, `repeat` | laws: classifications are probabilities, and runs on the same values repeat |
| `evolution` | captured samples, packs, and one evolution from step to step |
| `builtin` | sampling, generation, the pool of tier models |
| `gateway` | requests, replies, upstreams, the tool server, downloads |
| `bindings` | what the language bindings share |
| `json`, `text`, `single`, `widths` | values and numbers |

Hyperbolic tangents, exponentials, logarithms, powers and random draws are
handed in by the caller; what is stated holds for whatever values these give.
What is taken from other crates on trust is `serde_json` (reading and writing
values) and `base64` (decoding), and from the standard library `to_lowercase`
and `String::push`; each such item says in its comment what is claimed of it.

`tests/` holds the tests. `app/` is ordinary Rust around the library: files,
threads, the HTTP server, the command line, the C interface and the Python and
Node.js modules.
