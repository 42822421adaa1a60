# llm_response_tts

The logic of a local text-to-speech pipeline for LLM agent responses, written in Verus and
proved against its contracts. A hook (`ingest`) buffers a streamed response and splits it into
sentences; an ingress service orders them per session in Redis; workers transform and
synthesize each sentence; a per-session player plays the audio in order.

## Layout

- `src/` — the verified library:
  - `text` — whitespace, trimming, decimal formatting.
  - `json` — the hook event's JSON grammar and parser, and JSON string escaping.
  - `sentences` — splitting a message into sentences.
  - `session` — MurmurHash3, base62, and the session identity of a working directory.
  - `http` — the host tools' HTTP requests, status lines and the token file.
  - `ingest` — what the hook does with one event.
  - `queue` — Redis keys, request checks, and the commands of each endpoint.
  - `store` — what those commands do to the Redis state, and why sessions stay apart.
  - `transform` — the worker's text transforms (units, word references, stripped characters).
  - `config` — reading the worker's configuration documents.
  - `player` — the player's poll loop as a state machine, and its lock.
- `tests/` — tests of the library on concrete values.
- `app/` — the programs around the library (`ingest`, `clear-speech`, `clear-all-speech`,
  `player`, `ingress`, `worker`): file and network I/O, Redis, HTTP serving, audio output.
  One binary holds them all; it runs the program named by its first argument, or by its own
  name when installed as `llm-response-tts-<program>` (as the hook and `ingest` expect).
