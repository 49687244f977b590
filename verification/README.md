# gossip_nodes

A node for the Maelstrom workloads of the Fly.io distributed-systems challenges
(echo, unique ids, broadcast, grow-only counter, Kafka-style log), written as a
verified library and a thin program around it.

- `src/` — the library, verified with Verus:
  - `json.rs`: JSON values, their mathematical view, copy, equality and field access;
  - `text.rs`: decimal numerals and string equality;
  - `message.rs`: message types, bodies and the reading of their fields and errors;
  - `kv.rs`: requests to the key-value services and the reading of their replies;
  - `log.rs`: the log keys and entries, and the append, read, commit and
    committed-offset tasks as state machines;
  - `node.rs`: the node as a state machine from incoming message to messages sent;
  - `guarantees.rs`: properties of the node over one message, two, or a run of
    them (sound request ids, replies that resume a task once, unique generated
    ids, broadcasts read back);
  - `store.rs`: properties of the log tasks and of counter adds against a model
    of a key-value service (offsets handed out in order and never twice, even
    to interleaved appends; sent messages polled back; commits listed and
    idempotent; acknowledged adds summed).
- `app/` — reads messages from stdin, steps the node, writes what it sends to stdout.
- `tests/` — tests of the library on concrete messages.
