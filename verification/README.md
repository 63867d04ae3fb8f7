# webhook_catcher

A local HTTP receiver for webhook development. It captures bounded request
metadata and bodies and deduplicates retries by `X-Delivery-ID` or
`X-GitHub-Delivery`.

The library under `src/` is verified with Verus:

- `text` — byte-level text primitives (lines, tokens, Unicode trimming,
  ASCII case, decimal numbers, the `\r\n\r\n` terminator).
- `unicode` — UTF-8 facts about the pieces cut out of a valid head, and
  conversion of those pieces into `String`s.
- `framing` — reading one request from a stream: `RequestFramer` decides
  after every chunk, and `read_http_request` drives it over a reader.
- `request` — parsing a complete request, with every refusal a capture makes.
- `capture` — the capture record, SHA-256 body digests in hex, generated IDs
  and the duplicate decision.
- `response` — the reply for each outcome.
- `laws` — properties across these functions.

`app/` holds the command-line program: argument handling, the TCP listener
and the capture directory on disk.
