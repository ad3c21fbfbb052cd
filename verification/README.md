# atat (verified core)

A client for AT-command modems, with its decisions proved in Verus.

- `src/` is the verified library:
  - `error.rs`: the errors of an exchange and how a digester's error becomes
    a caller's error;
  - `cmd.rs`: the `AtatCmd` trait and `AtatCmdSpec`, what one exchange needs
    to know of a command (its timeout goes through `embassy_time::Duration`);
  - `client.rs`: the `AtatClient` trait, whose `send_retry` runs the retry
    policy, and `RetryLoop`, that policy as a state machine;
  - `exchange.rs`: one exchange of the simple client: what is kept of a
    digest, the decision after each digest, the receive buffer, and the
    outcomes of writes, reads and the overall timeout;
  - `derive_cmd.rs`, `derive_urc.rs`: the plans behind the command and URC
    derives (what they reject, the serialization order, the digest arms).
- `app/` is ordinary Rust around it: the asynchronous `SimpleClient` over an
  `embedded-io-async` reader/writer with `embassy-time` timeouts, the
  asynchronous `AtatClient`, and the token output of the two derives.
- `tests/` runs the library on concrete values.
