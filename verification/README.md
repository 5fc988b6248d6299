# bidder

A simple bidder for a proof market. Large orders are bid on with `BID_LARGE_AMOUNT`
(0.45 PROVE by default). Small orders are bid on with `BID_SMALL_AMOUNT` (0.01 PROVE
by default) when `BID_ENABLE_SMALL` is on, and are skipped otherwise.

- `src/` is the verified library. `bidder` holds the configuration and the policy,
  `cycle` is the state machine from an event to the next action, `history` reads the
  bids of others, `request` sorts proof requests, `prove_amount` reads amounts exactly
  as binary64 arithmetic does, and `laws` states what holds of every run.
- `app/` connects the library to the prover network: environment variables, gRPC
  calls, signing, metrics and logs.
- `tests/` runs the library.
