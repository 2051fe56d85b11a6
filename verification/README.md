# spire-gis

The core of a map application: it imports GeoJSON datasets into a graph store as layers and
features, keeps the catalog of layers, answers spatial queries, searches and queries in natural
language, and manages the definitions of the data sources that datasets are fetched from.

- `src/` is the library, verified with [Verus](https://github.com/verus-lang/verus). It holds what
  the application decides and computes: how requests are read and answered, how GeoJSON is decoded,
  how fragments of roads are chained together, what an import writes, how definitions are stored as
  nodes. Every function states what it returns; properties that span functions are stated as public
  proof functions.
- `app/` is the application around it: the actors, the network, the file system and the C entry
  points. It hands plain values to the library and carries out what the library decides.
- `tests/` runs the library on concrete values.

| Module | What it holds |
| --- | --- |
| `text`, `textmap`, `json`, `floats`, `order`, `grouping` | texts, ordered maps, JSON values, integers as floats, stable sorting, grouping |
| `geometry`, `chains` | geometries and their bounds; tracing line fragments into chains |
| `models`, `models::geojson` | nodes, attributes, styles; GeoJSON in and out |
| `actors::import`, `actors::import_run` | what an import writes, and how it is carried out step by step |
| `actors::layer` | the layer catalog |
| `actors::embedding`, `actors::layer_embedding` | embedding in batches; embedding a layer after its import |
| `datasources` | definitions, drivers, the codec to nodes, the store |
| `coordinator` | requests, queries, replies, natural language, the envelope |
| `tasks` | what services are asked for, and what is said when they fail |
| `hash_embedder`, `stamp`, `config` | token counts, ids and times, the data directory |

Numbers that are floats are carried as their bits; where the application has to compute with them
(distances, rounding to a grid, the length of a vector), `app/` does so and hands the outcome over.
