# golden_core

A shared space without an owner: entities and wanderers, the distances between them, and the
field that each wanderer sees. A node serves its part of the space over HTTP and exchanges news
with other nodes.

`src/` is the library. Every function in it has a contract that Verus proves; the few calls into
outside crates stand behind trusted items whose doc comments say what is taken on trust.

| Module | What it holds |
|--------|---------------|
| `fixed`, `order`, `text` | fixed-point numbers, stable sorting, strings |
| `stamp`, `ids` | points in time and identifiers |
| `graph` | the space: entities, relations, shortest ways |
| `distance` | the five-part distance, and where near and horizon end |
| `activity`, `identity`, `presence` | what has been met, who wanders, who is here |
| `field`, `render` | the field around someone, and the same as text |
| `wander`, `emergence` | drifting, encounters, gatherings and what comes of them |
| `host` | hosts and numeric addresses |
| `federation` | peers, gossip, what is shared, what expires |
| `store`, `request` | rows of the database, requests and answers |

Distances, components and strengths are integers counted in units of `1 / fixed::UNIT`; vectors
are held as the bit patterns of their coordinates. What needs floating point is measured by the
program in `app/` and handed to the library as such numbers.

`app/` is the server: HTTP, the database, the embedding model, background tasks. It reads its
pages from `static/` in the working directory.
