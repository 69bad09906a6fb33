# filecast

Sends files to many receivers at once, over UDP multicast. A server offers a file set: a list of
phases, each of them a file or a directory tree. Clients ask for the packets that they miss, and
write what arrives to disk. Every file is followed by the first 16 bytes of its BLAKE3 hash.

## Layout

- `src/` is the library. It holds all decisions, which are verified with Verus against the contracts
  of the outside functions that they call. Those contracts are taken on trust; each stands with the
  outside function it speaks of, in `buffers`, `checksum`, `range_set`, `sections`, `wire`, in
  `file_set_wire` (UTF-8 and shared bytes) and in `packet` (random session ids).
  - `packet`, `messages`, `wire`, `endian`: packet indices, messages, and their bytes.
  - `tree`, `file_set`, `cursor`, `file_set_wire`, `meta`: the files of the phases, where they lie,
    and the description that is sent ahead of them.
  - `checksum`, `buffers`, `sections`, `range_set`: hashes, byte buffers, and the collections of
    outside crates.
  - `disk_read_engine`, `stream`, `read_check`, `send_queue`, `server`: the sending side.
  - `client`, `sync`, `client_state`, `disk_writer`: the receiving side.
  - `delivery`: what holds from one end to the other. What a server sends makes up the files again.
  - `peer`, `util`: addresses, and small things.
- `app/` is the program around the library: arguments, sockets, threads and files.
- `tests/` runs the library on concrete values.

Statements about several functions stand in `src/` as proof functions whose names begin with `law_`.
