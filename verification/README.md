# oxi

The core of a local model runner, written in Verus.  The functions in
`src/` carry contracts that Verus proves, except the few small wrappers
marked `#[verifier::external_body]`: each makes one call into std or an
outside crate (the clock, SHA-256, JSON parsing, base64, Ed25519, edit
distance) and its contract is believed, not proved.

- `name`, `errtypes`, `syncmap`, `version`: model names, capabilities,
  error texts, build metadata.
- `modelfile`: the Modelfile grammar, and the request a Modelfile
  describes.
- `thinking`, `thinking_template`: thinking traces in streamed output, and
  the tags a chat template uses for them.
- `stop`, `cache`, `image_cache`: stop sequences, prompt caching across
  slots, image embeddings.
- `readline`, `progress`, `format`: line editing, progress indicators,
  human-readable sizes and times.
- `json`, `schema`, `grammar`, `builtin`, `convert`: JSON schemas turned
  into GBNF grammars.
- `tools`, `tool_calls`: tool calls found in streamed output.
- `template`: template variables, known templates, conversation turns.
- `auth`, `model_store`: signed requests, and the models a server knows.

`app/` holds what cannot be verified: the terminal, files, threads,
floating-point sampling, and the `serde` forms of library types.
