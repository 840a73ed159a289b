# qw_core

The decision logic of a peer-to-peer professional network client and its
multi-user host, written in Verus: every function in `src/` carries a
contract that the verifier proves, and the laws the library promises
(merging is a set union, a sealed blob opens back to itself, a stored
rating reads back until it expires, ...) are stated as public proof
functions next to the code they are about.

Layout:

- `src/` - the verified library, one module per concern:
  - `text` - the string and sequence helpers everything else is stated over;
  - `routing`, `contact`, `forwarding` - whom a referral query is
    forwarded to, the per-contact policy that lets it in or relays it, and
    what a node does with a query it holds (its own answer, the forwards,
    where answers go back);
  - `ratelimit` - the fixed-window limiter in front of sign-in;
  - `envelope`, `unlock`, `accounts`, `account_blob`, `multiuser` - the
    multi-user host: master keys and their wrappings, the account
    directory row, the sealed account payload, sign-in and registration
    decisions, session cookies;
  - `taxonomy`, `profile`, `negotiation` - skill tags, the profile editor's
    checks, and the contract-step decisions;
  - `bootstrap` - cold-start suggestions from a `git log`;
  - `events`, `history`, `sync`, `ledger`, `views` - held events, the
    mailbox sync, replica anti-entropy, and what a shell is shown;
  - `broadcast` - the relay decision's bookkeeping and the hop-rating cache;
  - `vault` - the key file's location and text form.
- `tests/` - tests run against the compiled library with the real crates.
- `app/` - a small command-line front (`git log` analysis, the key file)
  and what stays outside the verifier: floating-point relay scoring and
  contract-term figures, and the serialised forms of stored records.
