# signal_plot

Core of a signal plotter, verified with Verus.

- `src/types.rs`: times, time differences, resampling periods of the form 2^n ns, sample
  indices, and sparse block trees of samples (`Samples`).
- `src/resample.rs`: the backend's ingestion of raw samples and its choice of resampling
  periods.
- `src/decimate.rs`: position-addressed double-ended queues, time scales, and the index
  bookkeeping of incremental decimation.
- `app/`: the websocket server (axum, tokio), plot scales and the floating-point decimation,
  built on the library.
