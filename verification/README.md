# cli_ob

A verified order book for a futures exchange. The library in `src/` is written
in Verus: functions state what they return or change, and Verus proves it. Four
short functions around the standard library are trusted instead: `room` and
`give_back_room` in `trades`, `to_lower` and `to_upper` in `config`. Their
comments say what is claimed of each.

| Modules | What they hold |
|---------|----------------|
| `rounding`, `precision`, `monotone`, `nearness`, `ratios`, `binary64` | double-precision numbers over integers: operations, correct rounding, laws of rounding |
| `bignat`, `decimal` | reading decimal numbers |
| `levels`, `book`, `messages` | the sides of a book, snapshots and updates |
| `replay` | laws of the changes that updates make |
| `impact`, `slippage` | what a market order would pay, and how that grows with its size |
| `depth`, `columns`, `timeline` | the history of the book and the columns of the heatmap |
| `history`, `retention` | laws of the history: what is read back, what is kept |
| `trades` | recent trades and their rate |
| `sync` | joining a snapshot with a stream of updates, clocks and latencies |
| `buckets`, `screen`, `text`, `stats`, `config` | what the terminal view shows and asks for |
| `state` | what the feed and the views share |

A [`Binary64`](src/binary64.rs) holds the 64-bit encoding of a number;
`f64::to_bits` and `f64::from_bits` lead there and back.

`tests/` runs the library, and compares its numbers with those of the machine.
`app/` is the terminal program around it: the network, the terminal and the
clock.
