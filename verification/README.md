# sensor_gateway

A sensor-data gateway: producer threads read simulated sensors and push
reading lines into a bounded buffer; aggregation workers group each time
window's readings by sensor and store one statistics frame per sensor; two
web servers (an API and a dashboard) answer from the stored files.

The library under `src/` is verified with Verus:

- `power_of_two`: the power-of-two test and the mask that wraps a ring index.
- `round_queue`: `RWRoundQueue`, a ring queue of power-of-two size with a
  reading end (`QueueReader`) and a writing end (`QueueWriter`); a write into
  a full queue replaces the oldest item. Its laws: it never holds more than
  capacity − 1 items, and after any writes it holds the newest of them in
  order.
- `blocking_buffer`: `BlockingBuffer`, the bounded FIFO buffer, as single
  steps that either complete or say what to wait for; every item that went in
  came out or is still there.
- `reading`: the comma-separated reading line (split and joined back), and
  the value text the dashboard reads from a stored line.
- `window`: the readings of one window grouped by sensor, and the step that
  decides when a worker closes its window.
- `history`: the last lines of a sensor's file, oldest or newest first.
- `latest`: a file's last line as `str::lines` gives it, and the latest
  answer for a sensor: its aggregated frame when that is JSON (checked with
  `serde_json`), else its raw value.
- `sensor_ids`: the registered sensors and the `aggregated_` id prefix.

The queue and the buffer also state each operation as a step of a model
(`queue_step`, `buffer_step`); laws over any run of steps show that the
capacity never changes and that the counters grow by exactly the steps that
took effect.

`app/` is the program around it: the lock and condition variable around the
buffer, threads, clocks, files, floating-point statistics, JSON and the two
web servers.
