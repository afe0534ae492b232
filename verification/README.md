# bywind

A routing engine for voyages under sail and engine: it finds a route between two places
that takes little time and fuel in a forecast wind and stays off land.

The library under `src/` is verified with Verus. It holds what the engine decides and
computes: file formats, wind grids, land masks and distances to the coast, shortest ways
by sea, settings and their limits, and the course of a search or of a download. Its
functions state in `requires` and `ensures` what they take and what they give back, and
proof functions whose names start with `law_` state what holds across them.

Verus does not reason about floating-point arithmetic, so the library holds such numbers
as their bits (`number::Real` and `number::Real32`), which it can compare, and is handed
functions for what has to be added, multiplied or looked up. Every statement about such
a function holds for whatever it gives.

The code under `app/` is not verified. It supplies those functions, reads and writes
files, fetches forecasts, decodes AV1 streams, and runs the particle swarm of
`swarmkit-sailing`.

| Modules | Subject |
| --- | --- |
| `number`, `given`, `bytes`, `text`, `paths`, `calendar`, `io_error`, `axes`, `frontier` | numbers, text, dates and small structures |
| `wind_map`, `ensemble`, `grib2`, `wind_av1`, `baked_codec`, `io` | wind, and the files that hold it |
| `landmass`, `bounds`, `auto_bounds` | land, ways by sea, areas |
| `config`, `scenario`, `solution`, `fmt` | settings, saved routes, text for people |
| `route`, `search`, `metrics` | searches and what they find |
| `fetch`, `fetch_ensemble` | forecasts over the network |

Trusted code, whose contracts are believed and not proved, is marked
`#[verifier::external_body]`: calls into `chrono`, `grib`, `zstd` and `rav1e`, and the
reading of `std::io::Error`.
