# clob

A central limit order book exchange: price-time priority matching, signed orders,
accounts that are settled trade by trade, and checkpoints of the state that anyone
can audit by replaying the execution log.

The library under `src/` is verified with Verus.

- `decimal`, `types`, `book`, `engine`: amounts, orders, the order book and matching.
  `engine_laws` and `book_laws` state what matching keeps to.
- `accounts`, `keys`, `risk`, `users`: balances, verifying keys and the checks before
  trading. `account_laws` and `supply_laws` state what deposits and settlement keep to.
- `bytes`, `text`, `codec`, `messages`, `events`, `framing`, `channels`: how values
  are written and read, and under which names they travel. `wire_laws` states
  that amounts which are read back as they were written stay so while orders match.
- `crypto`, `merkle`, `listing`, `state`: digests, signatures and the root hash of the
  state.
- `market`, `matcher`, `execution`, `ingress`, `gateway`, `client`, `replay`,
  `settlement`, `audit`, `config`: the decisions of the services.

`app/` runs the services around the library: networking, files, Redis and settings.
`tests/` runs the library.
