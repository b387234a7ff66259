# ce-pin

Paid pinning of content-addressed objects, verified with Verus.

A publisher has objects held by hosts, for rent. The library in `src/` decides and computes
everything that can be decided and computed without the outside world, and every function of it is
proved against its contract:

| Module | What it states |
|---|---|
| `placement` | hosts are ranked by proven work, recency, memory and id; a choice has distinct hosts, none excluded, one per fault domain first |
| `audit` | a challenge picks a chunk of the object; a proof is the digest of chunk and nonce |
| `held` | totals, expiry, and which pins go when space runs out |
| `config` | the limits of a host and exactly when an offer is turned down, and why |
| `host` | each request from screening to reply; what garbage collection leaves |
| `client` | whom to ask, what to lock, what is owed, what to challenge |
| `repair` | what is placed, paid and recorded in a pass |
| `pinset`, `proto`, `metrics`, `roots`, `caps` | records, messages, counters and settings |
| `digest`, `text`, `order`, `table` | hexadecimal, text, stable sorting and ordered tables |

Laws that relate several functions are public proof functions named `law_*`.

What is taken on trust is in `src/digest.rs`: that `sha2` computes a function of the bytes, 32 bytes
long, and that `hex` writes and reads hexadecimal.

`app/` is the command line program around the library: files, environment, clock and mesh. It needs
the `ce-rs` and `ce-iam-core` crates of the CE workspace.
