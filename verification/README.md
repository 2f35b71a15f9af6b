# fist

A coordinator for distributed transactions. Participating services report
each local step of a global transaction; the coordinator groups the reports
by transaction, remembers whether any participant asked for a rollback, and
when a report closes the transaction it forgets the transaction and, if a
rollback was asked for, sends every report back to its participant.

- `src/` is the verified library:
  - `fist_core.rs`: the coordinator's state (three `dashmap` maps and a
    counter), the processing of a report, the rollback requests it yields,
    and the laws that hold across reports.
  - `encrypt.rs`: key derivation, AES-128-CBC passes through `rust-crypto`,
    and base64 encoding.
  - `model.rs`: the messages, the settings, and the `Finally` guard.
- `app/` is the HTTP service around it: configuration, logging, JSON,
  the actix-web endpoint, and the HTTP calls that carry out rollbacks.
- `tests/` exercises the library on concrete values.
