# shm_queue

A message queue laid out in a block of memory that processes share: a
32-byte header (read offset, write offset, reader lock timestamp, reserved),
followed by a ring of messages. Each message is an 8-byte header (state and
body length) and its body; a named semaphore wakes waiting readers.

- `src/circular_buffer.rs` — the ring: reads, writes and clears that wrap
  around the end, with the laws that relate them.
- `src/layout.rs` — little-endian fields in byte sequences.
- `src/queue.rs` — the queue header, the message layout, enqueue and dequeue,
  and the laws of the queue.
- `src/memory.rs` — options of a memory view.
- `src/sem.rs` — the semaphore, through `named-sem`.
- `src/clock.rs` — ticks since the year 1 from the system clock
  (`std::time::SystemTime`) and chrono's calendar.
- `app/` — file-backed counters, memory maps, the temporary directory, raw
  byte views of values, and error types with `Display`.
