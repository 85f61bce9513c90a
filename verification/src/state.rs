//! Everything the resource rules keep for a session.

use crate::counts::LiveCounts;
use crate::dmabuf::pending_planes::{pending, PendingPlanes, MAX_PENDING_PLANES_PER_CLIENT};
use crate::dmabuf::scanout::ScanoutFeedbacks;
use crate::drm_syncobj::DrmSyncobj;
use std::collections::HashSet;
use vstd::prelude::*;

verus! {

/// How many live `wl_shm` pools one client may hold.
pub const MAX_POOLS_PER_CLIENT: u32 = 128;

/// How many live `wl_buffer`s one client may hold.
pub const MAX_BUFFERS_PER_CLIENT: u32 = 512;

/// Live buffers a client may hold before fd pressure starts refusing more.
pub const PRESSURE_GRACE_BUFFERS: u32 = 128;

/// Live pools a client may hold before fd pressure starts refusing more.
pub const PRESSURE_GRACE_POOLS: u32 = 64;

/// The renderer behind an output.
#[derive(Clone, Copy, Debug, PartialEq, Eq, Structural)]
pub enum RendererKind {
    Pixman,
    Gles,
}

/// An output, as far as steering reads it: its id, the root surface of the
/// fullscreen window covering it, and whether its frames may go direct.
#[derive(Clone, Copy, Debug, PartialEq, Eq, Structural)]
pub struct Output {
    pub id: u64,
    pub covering: Option<u64>,
    pub direct: bool,
}

/// A session.
pub struct State {
    pub shm_pools: LiveCounts,
    pub wl_buffers: LiveCounts,
    pub capture_frames: LiveCounts,
    pub frozen_icons: HashSet<u64>,
    pub pending_planes: PendingPlanes,
    pub drm_syncobj: DrmSyncobj,
    /// The renderer of each output.
    pub backends: Vec<RendererKind>,
    /// The fds the renderer keeps of each imported plane, once learned.
    pub renderer_plane_copies: Option<u8>,
    /// Whether a client dma-buf was ever imported.
    pub imports_dmabufs: bool,
    /// Whether a drain of the renderers' caches is queued.
    pub dmabuf_drain_queued: bool,
    /// The outputs, the primary first.
    pub outputs: Vec<Output>,
    /// The default dma-buf feedback, if any was advertised.
    pub dmabuf_default: Option<u64>,
    pub scanout_feedback: ScanoutFeedbacks,
}

impl State {
    /// Every ledger is consistent, and no client is past a bound.
    pub open spec fn wf(&self) -> bool {
        &&& self.shm_pools.wf()
        &&& self.shm_pools.cap() == MAX_POOLS_PER_CLIENT
        &&& self.wl_buffers.wf()
        &&& self.wl_buffers.cap() == MAX_BUFFERS_PER_CLIENT
        &&& self.capture_frames.wf()
        &&& self.pending_planes.wf()
        &&& forall|client: u64| #[trigger]
            pending(self.pending_planes@, client) <= MAX_PENDING_PLANES_PER_CLIENT
        &&& self.drm_syncobj.wf()
    }

    /// A session with no clients and no outputs, which allows each client
    /// `max_capture_frames` live capture frames.
    pub fn new(max_capture_frames: u32) -> (state: State)
        ensures
            state.wf(),
            state.capture_frames.cap() == max_capture_frames,
            state.shm_pools@ == Map::<u64, u32>::empty(),
            state.wl_buffers@ == Map::<u64, u32>::empty(),
            state.capture_frames@ == Map::<u64, u32>::empty(),
            state.frozen_icons@ == Set::<u64>::empty(),
            state.pending_planes@ == Map::<(u64, u64), u32>::empty(),
            state.drm_syncobj.is_new(),
            state.backends@.len() == 0,
            state.renderer_plane_copies is None,
            !state.imports_dmabufs,
            !state.dmabuf_drain_queued,
            state.outputs@.len() == 0,
            state.dmabuf_default is None,
            state.scanout_feedback@.len() == 0,
    {
        State {
            shm_pools: LiveCounts::new(MAX_POOLS_PER_CLIENT),
            wl_buffers: LiveCounts::new(MAX_BUFFERS_PER_CLIENT),
            capture_frames: LiveCounts::new(max_capture_frames),
            frozen_icons: HashSet::new(),
            pending_planes: PendingPlanes::new(),
            drm_syncobj: DrmSyncobj::new(),
            backends: Vec::new(),
            renderer_plane_copies: None,
            imports_dmabufs: false,
            dmabuf_drain_queued: false,
            outputs: Vec::new(),
            dmabuf_default: None,
            scanout_feedback: ScanoutFeedbacks::new(),
        }
    }

    /// `client` has disconnected, and every object it had was destroyed: drops
    /// what is left of it besides timeline records, which go with their
    /// numbers.
    pub fn forget_client(&mut self, client: u64)
        requires
            old(self).wf(),
        ensures
            final(self).wf(),
            *final(self) == (State {
                drm_syncobj: DrmSyncobj {
                    retained: final(self).drm_syncobj.retained,
                    ..old(self).drm_syncobj
                },
                ..*old(self)
            }),
            final(self).drm_syncobj.retained@ == old(self).drm_syncobj.retained@.departed(client),
    {
        self.drm_syncobj.forget_client(client);
    }
}

/// A client that disconnects takes nothing but the mark for its next import: every count, every
/// record and every other client's mark stays.
pub proof fn a_departed_client_takes_its_mark_only(state: &mut State, client: u64, other: u64)
    requires
        old(state).wf(),
        call_ensures(State::forget_client, (state, client), ()),
    ensures
        !final(state).drm_syncobj.retained@.sweep_at.contains_key(client),
        other != client ==> {
            &&& final(state).drm_syncobj.retained@.sweep_at.contains_key(other) == old(state).drm_syncobj.retained@.sweep_at.contains_key(other)
            &&& final(state).drm_syncobj.retained@.sweep_at[other] == old(state).drm_syncobj.retained@.sweep_at[other]
        },
        final(state).drm_syncobj.retained@.owner == old(state).drm_syncobj.retained@.owner,
        final(state).drm_syncobj.timelines == old(state).drm_syncobj.timelines,
        final(state).drm_syncobj.waits == old(state).drm_syncobj.waits,
        final(state).shm_pools == old(state).shm_pools,
        final(state).wl_buffers == old(state).wl_buffers,
        final(state).capture_frames == old(state).capture_frames,
        final(state).pending_planes == old(state).pending_planes,
        final(state).frozen_icons == old(state).frozen_icons,
{
}

} // verus!
