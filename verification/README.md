# spotflowd

The rules of the Spotflow daemon for Linux, as a library verified with Verus. The daemon
collects logs from the journal and from syslog, metrics of the machine, and crash dumps of
the kernel. It buffers logs in memory and on disk and publishes everything over MQTT.

## Layout

- `src/` is the library. It holds no input or output. Where the daemon has to wait for
  the outside world, a function takes the outcome of the last action and returns the next
  one (`orchestrator::Tick`, `sources::tail::Tail`, `sources::crashdump::Scan`,
  `buffer::Flush`).
  - `sources/` reads syslog lines, journal entries and crash dumps.
  - `buffer`, `spool`, `chunks` decide what is kept in memory and on disk.
  - `orchestrator` decides what is published when.
  - `metrics/` reads `/proc`, aggregates samples and lays out metric messages.
  - `mqtt`, `cbor` lay out and encode log messages.
  - `text`, `split`, `number`, `order`, `string_map` are what the rest is built on.
- `app/` is the daemon: files, sockets, the MQTT client, and the arithmetic of doubles.
  It follows the journal through libsystemd; for a system without systemd, build it with
  `RUSTFLAGS="--cfg without_journald"`.
- `tests/` runs the library, with chrono and ciborium linked.

## What is proved

Every function of the library says in its contract exactly what it returns or changes.
Properties that span functions are proof functions whose names start with `law_`: that a
line put together from its parts reads back as those parts, that a chunk on disk is
deleted only once every entry in it was published, that sequence numbers go on without a
gap and survive a restart, and others.

## What is trusted

- `sources::syslog`: chrono's reading of RFC 3339 timestamps.
- `cbor`: ciborium's writing and reading of maps.
- `text`: `String::push` of the standard library.
