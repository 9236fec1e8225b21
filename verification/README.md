# chat_context

Decides what a chat client sends to a model, and refuses what would not fit.

- `guard` measures a request against the context window of its API profile.
- `normalize`, `images`, `sub_agents`, `system_prompt` and `context` prepare a request: its new
  messages, the images in them, the prompts, and the conversation they join.
- `chat_source` and `payload` turn prepared messages into a Chat Completions payload.
- `message`, `error`, `json` and `text` hold the types and primitives.

The functions in `src/` are verified with Verus against their contracts, but for two in `json`:
`value_from_str` has `serde_json` read a text, and `json_from_value` takes apart what was read.
Their contracts are taken on trust. The proof functions named `law_*` state what holds of the
library as a whole. `app/` reads and stores what the library asks for, and `tests/` runs the
library, with the `o200k_base` tokenizer where token counts matter.
