# pulsar_scenedb

An in-memory scene database, verified with Verus.

- `world`, `archetype`, `entity`, `query`: entities with components, stored in one table per set of component
  types; generational handles; queries for reading and for changing values in place.
- `cell`: spatial cells, with fixed columns, slots with generations, and deferred retirement of rows.
- `replication`: change tracking, frame deltas and their wire format, schemas and the handshake, encodings,
  relevance, authority, events, snapshots of worlds and cells, and client-side prediction.
- `gpu`: the host side of a GPU mirror: growable columns, columns with a shadow, one-time handoffs, presence and
  generation columns, partner fields, regions for resident cells, and a world whose mirrored components follow it.
- `component_store`, `subsystem`: blueprint components with reflected properties, and engine subsystems.

The library computes *what* is to be done on a device as a list of commands (`gpu::device`), with a model of device
memory that says what each command does. `app/` executes them with `wgpu`. It also holds what depends on floating
point, threads or a reflection layer.

The laws of the library are public proof functions beside the functions they are about, among them:

- a delta, a handshake, a snapshot or an encoded field that is read back is what was written, and a delta or a
  handshake that is cut off anywhere is refused;
- a stale handle stays stale, through deltas and snapshots too, unless one of them spawns into its slot: such a spawn
  sets the generation that it names; a query finds each matching entity exactly once;
- merging two peers' deltas does not depend on their order; it is what the higher client has and then what the other
  one has besides;
- a capture of a world that is restored gives every replicated field back, and a capture of the relevant entities is
  the full one restricted to them;
- a delta or a snapshot does to a mirrored world what it does to the world alone, and a value that replaces an equal
  one has nothing to upload;
- after a flush the device shows, for every mirrored component, the value that the world has
  (`gpu::mirror_laws`, `gpu::mirror_agreement`), and every row of every synchronized cell (`gpu::cell_laws`).

Components are identified by a number (`ComponentId`), and a world holds values of one type, which may be an enum.
