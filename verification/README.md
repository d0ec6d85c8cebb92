# arq

A stop-and-wait ARQ link over any polled byte stream, verified with Verus.

One `Arq` is one end of a link. It cuts what is written into payloads, sends them
in frames with a checksum, acknowledges what it receives, and sends again what was
not acknowledged in time. It has no tasks of its own and makes progress when it is
polled, over a lower layer (`Lower`), a clock (`Timer`) and a checksum (`Crc`) of
the caller's choice.

## Layout

| | |
|---|---|
| `src/arq.rs` | the machine: `poll`, `poll_read`, `poll_write`, `poll_flush` |
| `src/endpoint.rs` | the model in which the machine's contracts are written |
| `src/frame.rs`, `src/crc.rs` | the frame format and its checksum |
| `src/fifo.rs`, `src/metrics.rs`, `src/error.rs`, `src/time.rs` | the parts |
| `src/lower.rs`, `src/ports.rs` | the lower layer, and the record of what it said |
| `src/replay.rs` | how the model follows the machine's loops |
| `src/laws.rs` | what holds of one end, step by step |
| `src/steps.rs` | what one end does, as a walk of steps |
| `src/streams.rs` | bytes and frames keep their order, and a poll is a walk |
| `src/chunking.rs` | how the lower layer cuts up what it gives makes no difference |
| `src/progress.rs` | what a pending poll waits for |
| `src/lifetime.rs` | what holds of one end over all its calls |
| `src/line.rs`, `src/session.rs` | two ends over a line that loses and damages frames |
| `app/` | the link behind the stream traits of tokio and embedded-io-async |

## What is stated

The contract of each poll function says that the state it leaves, its result and
the bytes it hands over are those of the model, run on the replies that the lower
layer and the clock gave during the call. So a contract can be read without the
machine's loops, and it holds for every lower layer and every clock.

The lower layer keeps a log of its calls, and the contracts say that those replies
are the ones in it.

`session::law_bytes_cross_in_order` is what the link is for: over a line that loses,
damages and delays frames, the reader at one end gets the bytes written at the
other, in order, none missing and none twice; and `session::law_call_of_a_is_played`
and `law_call_of_b_is_played` say that calls of the machine are what happens there.
It holds as long as

- neither end starts over,
- a damaged frame keeps its length, and its checksum shows the damage, and
- the sender gives up on no payload that has not arrived.

Counters wrap at 2^32. A poll that calls the lower layer 2^64 times or more stops on
the way, and its contract says that the next one goes on from there.

Taken on trust are `std::time::Instant::now`, `std::time::Instant::duration_since`
and `core::time::Duration::as_millis`; and of a lower layer, that it reads and writes
no more bytes than the buffer it is given holds.
