# sashiko

Patch-source helpers of the sashiko kernel patch review service, verified
with Verus.

- `src/` is the verified library:
  - `text` — character-sequence utilities (lines, splitting, trimming,
    decimal numbers) specified over `Seq<char>`;
  - `lore` — lore.kernel.org URLs and message-IDs, thread archive
    addresses, picking a message out of a thread mbox, and turning a patch
    e-mail into review input;
  - `email` — header fields and diff of a patch e-mail;
  - `worker` — the review input types;
  - `ipc` — the symbol broker's cache and its answers;
  - `nntp` — NNTP status checks, commands and article lines;
  - `patchwork` — the requests that report a check to Patchwork;
  - `ai` — LLM messages API types, key selection and status mapping.
- `app/` holds the I/O: HTTP clients, the broker's Unix socket, the NNTP
  TCP connection, and serde forms of the library's types.
- `tests/` runs the library on concrete inputs.
