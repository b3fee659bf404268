# zahttp

An HTTP/1.1 server that depends on nothing but `std` and allocates nothing for a
request. Its logic is a library verified with Verus: every function states what
it computes, and the statements are proved.

## Layout

- `src/`: the library. It touches no socket. It takes the bytes of a client in
  pieces of any size, says what they mean, and composes what is sent back, all in
  fixed buffers.
- `app/`: the program around it: sockets, deadlines, threads, the counting
  allocator behind `/allocs`.
- `tests/`: the library run on concrete values.

## What is proved

- **Framing.** Requests that are written one after the other are answered one after
  the other, each from exactly its own bytes, however these are cut up, until one
  closes the connection (`conn`). What is sent in chunks is what the decoder gets
  back, trailers included, and a trailer that a sender must not send refuses the
  request (`chunked`). A head reads back as what it was made of (`http`).
- **Answers.** Every length that is announced is the length of what is sent, for
  one range, for several, and for the compressed body; heads always fit their
  buffers (`ranges`, `routes`). What OPTIONS lists is what a path answers (`conn`).
- **gzip.** What is compressed inflates to the input, and the room for it always
  suffices (`gzip`, `inflate`).
- **Forms.** A form reads back as its parts, one that is cut short is refused, and
  nothing inside a quoted value is taken for a parameter (`multipart`).
- **Events.** A feed counts up without a gap, never names zero, and goes on behind
  the event that a client names, in chunks or in plain bytes (`sse`).
- **WebSocket.** Messages are echoed, pieces are put together, control frames leave
  a message alone, and each violation closes the session with its code (`ws`).
- **Dates.** Every date before the year 10000 reads back as the moment it stands
  for (`dates`, `calendar`).

## What is trusted

The clock (`clock`), and two functions of `std` on strings, `from_utf8` and `trim`
(`strings`).

## Endpoints

| Path       | Methods  |                                                        |
|------------|----------|--------------------------------------------------------|
| `/`        | GET HEAD | a landing page                                         |
| `/health`  | GET HEAD | `ok`                                                   |
| `/time`    | GET      | the current time                                       |
| `/headers` | GET      | the request's header fields                            |
| `/metrics` | GET      | requests so far                                        |
| `/allocs`  | GET      | heap allocations so far                                |
| `/echo`    | POST     | the body, of at most 4 KiB                             |
| `/upload`  | POST     | a summary of a `multipart/form-data` body              |
| `/chunked` | GET      | a generated stream in chunks                           |
| `/bytes`   | GET HEAD | 64 KiB with ranges, validators and gzip                |
| `/events`  | GET HEAD | server-sent events, one a second, resumable            |
| `/ws`      | GET      | a WebSocket that echoes                                |
