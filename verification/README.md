# deskollama

The logic of a desktop front end for Ollama, verified with Verus, and the
application around it.

- `src/` is the library. Every function states in its contract what it returns.
  - `blobs`, `blob_laws`: digests, manifests, and what a cancelled download may
    delete.
  - `stream`, `stream_laws`: newline-delimited JSON, however it is divided into
    chunks.
  - `install`: what the install script reports, and whether it did its work.
  - `locate`: where Ollama and its models are.
  - `request`: the requests that are made, and which pages may be asked for.
  - `close`: unloading models when the window is closed.
  - `registry`: the streams under way.
  - `json`, `lines`, `text`, `failure`: documents, lines, text, and what the front
    end is told.
- `app/` is the application: the window and its commands, the disk, processes and
  the network.
- `tests/` runs the library on values.

What the proofs rest on is stated at the functions marked
`#[verifier::external_body]`: `serde_json` parses documents, `reqwest` judges
request methods, and the standard library decodes bytes.
