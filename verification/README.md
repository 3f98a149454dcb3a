# image_optimizer

A reverse proxy in front of an image store. A request for a JPEG or PNG image
is answered with an AVIF or WebP version of it where the query
(`?format=avif`) or, if that is enabled, the `Accept` field asks for one.
Converted images are kept in a cache on disk, which is cleaned up by age and by
size. Everything else is passed on to the upstream server.

- `src/` is the library, verified with Verus: every decision that the server
  takes, as functions from plain values to plain values, and state machines
  where deciding and doing alternate.
- `app/` is the server around it: sockets, files, locks, encoders.
- `tests/` runs the library.

| module | |
| --- | --- |
| `text`, `numbers`, `quality`, `paths`, `sorting` | characters, numbers, file names, sorting |
| `query`, `target`, `headers`, `accept`, `formats` | what a request says |
| `transform` | whether its answer is converted, and to what |
| `proxy`, `response`, `body` | the course of a request, from its plan to the head of its answer |
| `images` | source images and what the encoders are given of them |
| `cache`, `flight`, `cleanup` | keys and files of the cache, locks, clean-up |
| `config` | the settings |

The settings are environment variables: `LISTEN_ADDR`, `UPSTREAM_BASE`,
`CACHE_DIR`, `LOG_DIR`, `MAX_TRANSFORM_BYTES`, `MAX_PIXELS`, `AVIF_QUALITY`,
`AVIF_SPEED`, `WEBP_QUALITY`, `CACHE_VERSION`, `ENABLE_ACCEPT_NEGOTIATION`,
`MAX_CONCURRENT_ENCODES`, `UPSTREAM_CONNECT_TIMEOUT_SECS`,
`UPSTREAM_REQUEST_TIMEOUT_SECS`, `CACHE_CLEANUP_ENABLED`, `CACHE_MAX_BYTES`,
`CACHE_MAX_AGE_DAYS`, `CACHE_CLEANUP_INTERVAL_SECS`.
