# tinybase

A small key-value database with the endpoints of Replit DB, guarded by a
shared secret, with a websocket hub for chat rooms and key-prefix listeners.

- `src/` is the verified library:
  - `url_codec`: what percent-encoding and -decoding of keys and values return,
    and the proofs that decoding undoes encoding and that an encoded string
    holds neither `=` nor a line break;
  - `prefix`: whether a string starts with another;
  - `controllers::key_controller`: reading a `key=value` write, and listing
    the stored keys that start with a prefix, with the proofs that a client
    that splits a listing into lines (and decodes them) gets those keys back
    and that a longer prefix lists no key that a shorter one misses; and the
    answer (`200`, `204` or `404`) to a read or a delete of a key;
  - `data_access`: the stored rows, the prefix pattern of a key search and the
    keys of its rows;
  - `auth_middleware`: the secret check in front of the routes, which refuses
    every request, with a body that says why, when no secret is saved;
  - `actors`: the hub's sessions, rooms and listeners as a state machine whose
    handlers name the messages to send (arrivals and departures in rooms, and
    writes of keys to the sessions listening to a prefix of them), with laws
    over its transitions; a session is registered only under an id that no
    other session holds; `actors::session_command` reads a client's text
    frame as `/list`, `/join <room>`, `/listen <prefix>` or a chat message;
  - `visitors`: the visitor counter's report.
- `app/` is the server: actix routes and actors, the SQLite store through
  diesel, the environment, and the sending of the hub's messages.
- `tests/` runs the library on concrete values.

The hub's tables map room names and key prefixes to sets of session ids.
`actors::named_sets` keeps each table as a vector of named sets whose names are
pairwise distinct, viewed as a map, in place of a `HashMap` keyed by `String`:
with `String` keys Verus proves nothing of what `HashMap`'s methods return,
while over the vector every operation of the table has an exact contract.
vstd specifies what `HashMap`'s methods return only for key types whose
hashing and equality it models: integers and `bool`, not `String`. The sets
of session ids are `HashSet<u128>`, which it does specify.

A listing takes the stored keys as an argument. The server reads them with
SQLite's `LIKE`, which ignores ASCII case and treats `%` and `_` as wildcards,
so it finds a superset; the library keeps exactly the keys that start with
the prefix.
