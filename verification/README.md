# mandelbrot_dist

A hub splits each Mandelbrot image job into row chunks, hands the chunks to
workers over TCP, collects their results and assembles the final image.

- `src/` is the verified library (Verus): chunk planning and time limits
  (`tasks`), the hub state with its job table, chunk queue and worker set
  (`hub`, `registry`), job ids (`ids`), message framing on worker
  connections (`session`), the gallery page (`gallery`) and the chat hub's
  arithmetic challenge (`challenge`).
- `app/` is the program around it: the REST interface, the TCP loops, JSON
  encoding, the floating-point Mandelbrot iteration and colouring, and PNG
  output. Its first argument picks the role: `hub`, `worker`, `tcp-hub`,
  `tcp-client`, `chat-hub` or `chat-client`.
- `tests/` runs the library on concrete values.

Collections: the job table is a `Vec` of `(id, job)` pairs with distinct ids,
and connected peers are a `Vec` of distinct address strings (`Registry`).
vstd's `HashMap`/`HashSet` specifications hold only for key types it can
model as plain values, and neither `String` nor a socket address is one, so a
map keyed by them would give the proofs nothing to work with. Listing order
is therefore creation order; lookups compare ids as text.
