# redis-connector

A change-data-capture connector: PostgreSQL logical replication → Redis streams →
OpenSearch. The library under `src/` is verified with Verus; `app/` is the program
around it (command line, network I/O, Tokio tasks).

| module | what it holds |
|--------|---------------|
| `text`, `fields`, `json`, `settings` | numbers and texts, named fields in order, JSON values, settings with defaults |
| `event`, `document`, `envelope` | row-level changes, the ids of their documents, and what a consumer reads out of a payload |
| `wire`, `wal`, `layout` | the `pgoutput` messages: how they are read, and that laid-out messages are read back |
| `handler` | a stand-alone message parser that follows transactions by itself |
| `redis_producer`, `producer` | routing to partitioned streams, payloads, versions, and what the producer does at each event |
| `config`, `reply`, `opensearch`, `worker` | the consumer: its settings, Redis replies, bulk requests and their outcomes, and how each message is settled |

What the library promises across functions is stated in the public proof functions
whose names begin with `law_`: among them that a log position is acknowledged only
after its transaction was published, that all changes of a row go to one stream with
rising versions, that different rows have different document ids which are plain
wherever no other row would share them, that a payload says
the version and the change that were published, that a message is to be acknowledged
only when it is done, stale or about to be dead-lettered, that a message which keeps
failing is dead-lettered at its limit, and that a worker backs off after a failed batch.
An acknowledgement that follows a dead letter is sent even where Redis did not take the
dead letter; the worker then backs off.

Calls into `bytes`, `serde_json` and `pgwire-replication` stand behind small
functions whose doc comments say what is taken for granted of them.
