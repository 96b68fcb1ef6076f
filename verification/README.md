# gst_backend

The decisions of an audio player that drives two GStreamer pipelines: which pipeline is
asked for which state, what its listeners are told, at which volume each pipeline plays,
and how one track fades into the next.

The library under `src/` holds no pipeline. It answers each request of the user and each
message of a pipeline with the actions to take, and its answers are proved against the
contracts that stand beside them.

- `action`: what the player is told and what it has the program do
- `transition`: the requests that bring the pipelines into another state
- `player`: the player's state and its answers
- `crossfade`: the fade from one pipeline to the other
- `uri`: the `file:` URIs of tracks
- `double`, `rounding`: double-precision numbers, held by their bit patterns, and their
  arithmetic, rounded as IEEE 754 asks
- `laws`, `fade_laws`: what holds of the player, and of a crossfade, as a whole

The program under `app/` owns the pipelines, their buses, the clock and the timers. It
hands numbers to the library by `f64::to_bits`, and sets them on the pipelines by
`f64::from_bits`.
