# minocrab_std

The ledger side of a contract library for Midnight, verified with Verus: where a
block's fields are, what they hold at deploy, how a standard is claimed and read
back, and the blind write programs that let transactions land without contention.

| module | what it holds |
|---|---|
| `layout` | the segmentation of a block, field paths, headed layouts |
| `header`, `state`, `discriminator` | standards, the deploy state, the reader of a standard's magic |
| `fab`, `value`, `number`, `wire` | stored values, state trees, numbers, the types a circuit computes with |
| `ledger` | the handles of a block's slots |
| `impact`, `hook`, `circuit` | the ledger's machine and its programs, hooks, a circuit's run |
| `assumed`, `abi`, `vector` | assumed reads, circuit arguments, bounded vectors |
| `blind`, `stream`, `serial`, `record`, `outbox` | blind accumulators, streams, what a serial one promises, the outbox |
| `derive` | the two derives, from a declaration to its expansion |

`tests/` runs the programs on the ledger's own machine and compares states with
the ledger's own values. `app/` turns expansions into token streams and deploy
states into ledger values.
