# raftscope

A browser visualization of the [Raft consensus algorithm](https://raft.github.io/):
a cluster of five servers, the messages between them, and a timeline that can
be scrubbed back and forth. Its core is verified with
[Verus](https://github.com/verus-lang/verus).

## Controls

Drag the **timeline** slider to scrub through history; the **speed** slider
sets the simulation rate. Click a server or an in-flight message for details,
right-click for actions.

| Key | Action |
|-----|--------|
| `space` / `.` | pause / resume |
| `c` | client request to the leader |
| `r` | restart the leader |
| `t` | spread election timers (avoid split vote) |
| `a` | align election timers (force split vote) |
| `l` | set up a log-replication scenario |
| `b` | resume all servers |
| `f` | fork playback, discarding the future |
| `?` | help |

## Layout

Everything under `src/` is verified.

- `protocol.rs`, `timeline.rs`: the simulation and its history as mathematics.
  Each step is a function from one state to the next, with the source of chance
  as part of the state.
- `raft.rs`, `rules.rs`, `handlers.rs`, `tick.rs`, `actions.rs`: the simulation.
  `Model::update` is one tick. Times are whole microseconds.
- `state.rs`: the checkpoint history behind the timeline slider.
- `session.rs`: keys, buttons, sliders and playback; what is to be done to the
  page comes back as a list of effects.
- `figures.rs`, `details.rs`, `text.rs`: what is drawn and written, but for the
  geometry.
- `validity.rs`, `checks.rs`: when a step can be taken, and how to ask.
- `laws.rs`, `cluster_laws.rs`, `timer_laws.rs`, `scenario_laws.rs`,
  `consensus_laws.rs`, `run_laws.rs`, `timeline_laws.rs`, `session_laws.rs`:
  what holds of every run. There is at most one leader per term, a server votes
  once in a term, logs match, a leader has all that is committed, committed
  entries are never lost and never differ, and whatever the timeline has shown
  it shows again. The log-replication scenario is the exception: set up before
  the first election it keeps all this, but later on it may turn terms back, and
  then the laws on terms, logs and commits do not hold of what follows.
- `safety.rs`, `annals.rs`, `consistency.rs`: why.

`app/` is the page: drawing, events and storage.
