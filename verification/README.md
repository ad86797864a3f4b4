# spinningjenny

The core of a thread-pool executor for Python, verified with Verus.

- `src/ordered.rs`: the reorder buffer (`OrderedResults`) that turns results
  arriving in any order over a channel into the ordered stream, and the shared
  back-pressure state (`OrderedBufferState`) that the task producer consults.
  `try_next` and `next` are stated over the log of the messages they take
  from the channel (`src/inbox.rs`): when the ids taken are distinct, each
  call hands out the taken message with the expected id or nothing, and keeps
  the buffer in agreement with everything taken. `law_stream_in_order` shows
  the same of a whole stream of arrivals drained after each one.
- `src/shared_size.rs`: the shared size cell and condition variable, and the
  receipts that only storing a size, waking a producer or waiting for space
  hand out; the reorder buffer's contracts on publishing and waking are stated
  over them.
- `src/scheduling.rs`: the decisions of `map`: accepted buffer sizes, the
  result channel's capacity, how often the producer runs tasks itself, how it
  reacts to a filling buffer, and when a worker reuses its cached context.
- `app/`: the Python extension module (pyo3) and the rayon task loop, which act
  on those decisions.
