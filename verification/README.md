# scoot

The rules of the scoot Wayland compositor as a verified library.

- `dispatch`, `protocol`, `counts`, `objects`: what a client may ask for, the bounds on what it may
  have the compositor hold, and the protocol errors that answer a client past them.
- `dmabuf`: the dma-buf layouts that are offered, the planes of unfinished buffers, what an import
  costs in file descriptors, and the steering of clients to layouts that scan out.
- `drm_syncobj`: explicit sync. Imported timelines, commits that wait on an acquire point, and
  buffers that are held until the screen no longer shows them.
- `decorations`, `drawn`, `arrangement`, `geometry`: the rings around windows.
- `state`: one session. `text`, `tally`: decimal text and sums.

Clients, objects and surfaces go by numbers. What the kernel, the renderer or Smithay decides is a
closure argument. A contract says where each of them may be asked, of what, and what follows from
each answer.

`app/` connects the library to Smithay. Whatever names an item of Smithay links libxkbcommon, and
the library and its tests link without it, so the library names none. What it needs of Smithay's
values it holds as plain values of its own, which `app/` fills one for one: a `FormatSet` lists what
a driver's format set lists, and a `FormatTable` has for each fourcc what `get_opaque` and `get_bpp`
answer. What follows from them is decided in the library.
