# kvtier

A KV cache tier for LLM inference engines, written in Rust and verified with
Verus. The engine asks how much of a prompt's KV cache already exists, fetches
what does, and hands back what it had to compute.

A block is a fixed number of tokens' worth of KV. Its name is a hash of its
whole token history, so two sequences share a name exactly when their KV bytes
are identical: prefix matching is a walk through a table, and deduplication
falls out of the naming.

## The library

```
block     naming: prefix-chained BLAKE3 over model, layout, byte order, shard
naming    what names tell apart, up to collisions of the hash
slab      memory: fixed slots over an anonymous mapping
pool      the slot discipline that memory and disk share
tier      disk: the same slots, as offsets into a file
index     name to place, parents and children, readers, priorities
heap      the candidates for eviction, lowest first
evict     GreedyDual-Size: recency and rebuild cost in one number
store     lookup, admission, fetch, demotion, promotion, writeback
ledger    who owns which slot
proto     the 16-byte header, readers and writers, errors
message   the payloads of requests and replies
server    what a request asks for and what is answered
client    checking replies, splitting runs into frames
trace     synthetic workloads
demo      hit counts over a workload
```

Everything here is decision and bookkeeping. The library never reads or writes
a file or a socket: where a block has to go to disk or come back, the store
hands out what to move, is told how it went, and goes on from there. Floating
point stays outside too; a priority travels as the bits of a positive number,
and what a block is worth comes from an implementation of `evict::Costs`.

Two invariants hold of every store. A block is only taken in below a resident
parent, so every block of its history is resident as well; and only a leaf is
ever removed outright, while any block may be moved to disk. `store/laws.rs`
states what follows across calls.

## Around it

`app/` is the program: the daemon, a workload demo, a load generator, the
asynchronous server and client, the file behind the disk tier, the cost model,
and bindings for Python. `tests/` runs the library.
