# mmbus

Publish/subscribe between the processes of one machine: a single-producer,
multi-consumer ring buffer in shared memory, with an optional write-ahead log
behind it. No broker, no server.

The library in `src/` holds the formats, the data structures and the decisions,
verified with [Verus](https://github.com/verus-lang/verus). It does no I/O: what
a file, a socket or a clock gave comes in as an argument, and what is to be done
goes out as a result.

| Module                | What it is                                              |
|-----------------------|---------------------------------------------------------|
| `ring`                | the ring buffer and its layout                          |
| `publisher`           | the publisher of a topic                                |
| `logged_publisher`, `mapped_publisher` | publishing on a topic with a log       |
| `subscriber`, `subscription` | reading a topic                                  |
| `bus`                 | topics, their files, and the publishers of a process    |
| `producer_lock`, `waker` | one publisher per topic; wakeups                     |
| `wal`                 | the log over segment files                              |
| `wal::v2`             | the log over memory-mapped segments                     |
| `prometheus`, `exporter` | metrics in the Prometheus text format                |
| `codec`, `text`, `rows` | bytes, text, fixed-size rows                          |

Modules whose names end in `_laws` state what holds across operations, such as
that a subscriber reads the messages in order, or that a log gives back what it
took. Other laws stand beside the types that they are about.

`app/` surrounds the library with files, mappings, sockets, threads and Python
bindings. `tests/` exercises the library on concrete values.
