# sender

A transaction sender for Substrate chains. Any number of senders submit balance transfers to a
node at a target rate, hold back while the node's pool is full, and start anew every ten rounds;
in each round a monitor reads one best block, or finds that it cannot, counts the transfers that
the block holds and reports the throughput.

`src/` is the library: every decision that the sender makes, with its contract, verified by Verus.

| module | what it decides |
| --- | --- |
| `rate` | how many senders run, and how long each waits between two transactions |
| `worker` | when a sender submits, with which nonce, and when it holds back |
| `monitor` | what is read of the chain next, and when the senders start anew |
| `block` | which extrinsics count, the chain's time, the throughput |
| `pre` | which accounts a sender has, and whether they are fresh and funded |
| `funds` | whether an account covers the existential deposit and the fees |
| `account` | what the node's answer says of an account |
| `node` | the node's address, and who opens a connection to it |
| `scale` | the compact and little-endian numbers of the SCALE encoding |
| `float` | rounding to the significand of a floating-point number, on integers |

Functions that call `parity_scale_codec`, `frame_system`, `pallet_balances`, `sp_core` or `url`
stand behind small trusted functions, each with a comment that says what is believed of the call.

`app/` is the program around the library: it parses arguments, talks to the node, sleeps, and
performs the actions that the library decides on. Besides the dependencies in `Cargo.toml` it
needs `subxt` 0.37 with the feature `substrate-compat`, `jsonrpsee-client-transport` and
`jsonrpsee-core` 0.22, and the workspace crate `funder_lib`, which derives the senders' and
receivers' key pairs. `Cargo.toml` leaves them out: `funder_lib` is not published, and the other
three would add more than two hundred packages that neither the library nor its tests use.
