# dns forwarder library

A verified library for the wire format of a small forwarding DNS server, and
the server itself around it.

- `src/` is the library, verified with Verus:
  - `wire.rs`: big-endian fields;
  - `header.rs`: the twelve-byte header and its flag word;
  - `text.rs`, `name.rs`: labels as text and as bytes, domain names on the wire;
  - `question.rs`: the question section, its scan (with compression pointers)
    and its plain encoding;
  - `compress.rs`: the compressed encoding of the question section;
  - `answer.rs`: the answer section;
  - `message.rs`: whole messages, forwarded queries and responses;
  - `forward.rs`: when to resend a forwarded query.
- `app/main.rs` is the server: the UDP socket, printing, and the forwarding loop.
- `tests/` holds the tests of the library.

Each parser comes in two forms: `try_...` returns `None` exactly on the inputs
where reading would go out of range or underflow, and the plain form asks, in
its precondition, for an input on which it does not.
