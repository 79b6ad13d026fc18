# loomd

The engine behind Cyberloom, a desktop application for building programs by
wiring typed blocks together on a canvas. The engine is a daemon: it serves a
workspace folder over a line-delimited JSON protocol and keeps the book on
every run a connection has in flight. This build has no `.loom` reader and no
block catalogue (those crates are not part of it), so it answers graph
requests with `unavailable`; what it holds of running a graph is the deciding
part below — the plan, each step and the walk — ready for a driver.

`src/` is the engine's deciding part, written in Verus with each function's
behaviour stated as a contract and proved:

- `workspace` — what a path in a workspace means, which requests climb out of
  it, how a file is named inside it, and the order graphs are listed in.
- `settings` — `workspace.yaml`, read and written, and what the machine probe
  reports.
- `session` — runs and the warnings they are parked on, what stopping,
  holding and answering do to them.
- `fetch` — a resumable download's decisions.
- `run/plan` — steps, capabilities, bindings and the order a graph runs in.
- `run/runner`, `run/talk`, `run/live` — what a run decides: routing tool
  calls, trusting blocks, the conversation with a model, the overlap policy of
  a live graph and what an event sets going.
- `run/memory`, `run/rig`, `run/sense`, `run/source`, `run/blocks`,
  `run/actuate`, `run/value`, `run/model` — working memory, rigs and their
  manifests, capture arguments and WAV envelopes, globs and webhooks, block
  behaviour, device replies, one-line value summaries and tool names.
- `run/custom`, `run/perceive` — what a custom block runs and with which
  driver, and what a perception block asks of the helper.
- `run/walk` — a run step by step: what comes next, what a finished or
  failed block does to the rest, and how the run ends.
- `text` — strings as sequences of characters, which everything above reads
  and writes with.

`app/` is the process around it: arguments, the socket or stdin, the JSON, the
disk, the programs the probe runs, ffmpeg, SQLite, the HTTP a download and a
model make, and the arithmetic on floats.
