//! The rules of the scoot Wayland compositor: what each client may have it hold (pools, buffers,
//! planes, timelines, waits), which dma-buf layouts it offers and steers clients to, when a buffer
//! is handed back, and the rings it draws around windows.

pub mod arrangement;
pub mod counts;
pub mod decorations;
pub mod dispatch;
pub mod dmabuf;
pub mod drawn;
pub mod drm_syncobj;
pub mod geometry;
pub mod objects;
pub mod protocol;
pub mod state;
pub mod tally;
pub mod text;
