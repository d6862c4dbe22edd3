# hypergrab

A segmented HTTP downloader that takes its download links from a browser
extension. The library in `src/` holds the decisions and computations, with
Verus contracts and proofs; `app/` holds the network, file, thread and task
work around it.

- `ranges` — how a file is cut into byte ranges (equal parts, or spread
  parts) and the `Range` header of each; proofs that the parts tile the file.
- `response` — reading a `HEAD` response: header lookup as `HeaderMap::get`
  does it, header text, lenient lengths.
- `headers` — the `HeaderMap` a client sends (through `reqwest`), which
  browser headers are forwarded, and map-like editing of header pairs.
- `dmserver` — what the listener does with each incoming request.
- `odm`, `downloader_mt`, `downloader_async` — the three downloaders.
- `text`, `number`, `paths` — trimming, searching, case folding, decimal
  numbers, file names and paths.
