//! The guards every request passes before it is delegated, and the hooks every
//! destroyed object passes.
//!
//! A guard answers a request that must not be served with a protocol error,
//! which disconnects only the client that sent it, and counts what a served
//! one will make the compositor hold. Every refusal is decided before
//! anything is counted, so a refused request never takes a unit it would have
//! to give back. The destruction hooks release what was counted, which is also
//! how a disconnect drains a client's counts.

use crate::counts::{claimed, forgotten, live, LiveCounts};
use crate::dmabuf::pending_planes::{
    observes, pending, plane_step, reject_excess_plane, the_bound_is_per_client, an_add_counts_one,
    a_release_gives_back_exactly_once, without_params, Planes, MAX_PENDING_PLANES_PER_CLIENT,
};
use crate::dmabuf::schedule_cache_drain;
use crate::drm_syncobj::retained::{answerable, answered, Ledger};
use crate::drm_syncobj::{
    import_admission, import_may_observe, import_may_sweep, import_step, PRESSURE_GRACE_TIMELINES,
};
use crate::protocol::{
    said, Destroyed, ErrorText, Interface, ProtocolError, Request, DUPLICATE_FRAME, IMMUTABLE,
    INVALID_FD, INVALID_SIZE, INVALID_STRIDE, INVALID_WL_BUFFER, NO_ERROR_DEFINED,
};
use crate::state::{
    State, MAX_BUFFERS_PER_CLIENT, MAX_POOLS_PER_CLIENT, PRESSURE_GRACE_BUFFERS,
    PRESSURE_GRACE_POOLS,
};
use crate::text::{decimal, push_decimal, push_signed, signed_decimal};
use std::collections::HashSet;
use vstd::prelude::*;
use vstd::string::*;

verus! {

/// The largest `wl_shm` pool that is mapped, in bytes (512 MiB).
pub const MAX_SHM_POOL_BYTES: i32 = 512 * 1024 * 1024;

/// The largest layer surface dimension: what fits surface-local coordinates.
pub const MAX_LAYER_DIMENSION: u32 = 0x7fff_ffff;

/// Whether a client that holds `live` of something must be refused one more,
/// while the fd table is or is not `pressured`: only past the grace, and only
/// under pressure.
pub fn pressure_refusal_for(live: u32, grace: u32, pressured: bool) -> (refused: bool)
    ensures
        refused == (live > grace && pressured),
{
    live > grace && pressured
}

/// The same, with the fd table observed by `pressured` only for a client past
/// its grace, so the path of every other client costs no observation.
pub fn pressure_refusal<P: FnOnce() -> bool>(live: u32, grace: u32, pressured: P) -> (refused: bool)
    requires
        live > grace ==> call_requires(pressured, ()),
    ensures
        live <= grace ==> !refused,
        live > grace ==> call_ensures(pressured, (), refused),
{
    if live <= grace {
        return false;
    }
    let p: bool = pressured();
    pressure_refusal_for(live, grace, p)
}

pub open spec fn too_large_text(size: int) -> Seq<char> {
    "wl_shm pool size "@ + signed_decimal(size) + " exceeds scoot's maximum of "@ + decimal(
        MAX_SHM_POOL_BYTES as nat,
    ) + " bytes"@
}

/// The message both size-cap refusals carry.
pub fn too_large(size: i32) -> (text: String)
    ensures
        text@ == too_large_text(size as int),
{
    let mut text = String::from_str("wl_shm pool size ");
    push_signed(&mut text, size);
    text.append(" exceeds scoot's maximum of ");
    push_decimal(&mut text, MAX_SHM_POOL_BYTES as u64);
    text.append(" bytes");
    text
}

pub open spec fn too_many_pools_text() -> Seq<char> {
    "wl_shm pool refused: this client already holds the maximum of "@ + decimal(
        MAX_POOLS_PER_CLIENT as nat,
    ) + " live pools"@
}

/// The message the live-pool-count refusal carries.
pub fn too_many_pools() -> (text: String)
    ensures
        text@ == too_many_pools_text(),
{
    let mut text = String::from_str(
        "wl_shm pool refused: this client already holds the maximum of ",
    );
    push_decimal(&mut text, MAX_POOLS_PER_CLIENT as u64);
    text.append(" live pools");
    text
}

pub open spec fn too_many_pools_under_pressure_text() -> Seq<char> {
    "wl_shm pool refused: compositor-wide file-descriptor pressure, and this client holds more than the "@
        + decimal(PRESSURE_GRACE_POOLS as nat) + "-pool pressure grace"@
}

/// The message the pressure-grace pool refusal carries.
pub fn too_many_pools_under_pressure() -> (text: String)
    ensures
        text@ == too_many_pools_under_pressure_text(),
{
    let mut text = String::from_str(
        "wl_shm pool refused: compositor-wide file-descriptor pressure, and this client holds more than the ",
    );
    push_decimal(&mut text, PRESSURE_GRACE_POOLS as u64);
    text.append("-pool pressure grace");
    text
}

pub open spec fn too_many_buffers_text() -> Seq<char> {
    "wl_buffer refused: this client already holds the maximum of "@ + decimal(
        MAX_BUFFERS_PER_CLIENT as nat,
    ) + " live buffers"@
}

/// The message the live-buffer-count refusal carries, whichever factory the
/// client came through.
pub fn too_many_buffers() -> (text: String)
    ensures
        text@ == too_many_buffers_text(),
{
    let mut text = String::from_str("wl_buffer refused: this client already holds the maximum of ");
    push_decimal(&mut text, MAX_BUFFERS_PER_CLIENT as u64);
    text.append(" live buffers");
    text
}

pub open spec fn too_many_buffers_under_pressure_text() -> Seq<char> {
    "wl_buffer refused: compositor-wide file-descriptor pressure, and this client holds more than the "@
        + decimal(PRESSURE_GRACE_BUFFERS as nat) + "-buffer pressure grace"@
}

/// The message the pressure-grace buffer refusal carries.
pub fn too_many_buffers_under_pressure() -> (text: String)
    ensures
        text@ == too_many_buffers_under_pressure_text(),
{
    let mut text = String::from_str(
        "wl_buffer refused: compositor-wide file-descriptor pressure, and this client holds more than the ",
    );
    push_decimal(&mut text, PRESSURE_GRACE_BUFFERS as u64);
    text.append("-buffer pressure grace");
    text
}

/// How a resize to `size` is answered: a size that is not positive, or past
/// the cap, is an invalid fd.
pub open spec fn resize_refusal(size: int) -> Option<ErrorText> {
    if size <= 0 {
        Some(
            ErrorText {
                interface: Interface::ShmPool,
                code: INVALID_FD,
                message: "invalid wl_shm_pool size"@,
            },
        )
    } else if size > MAX_SHM_POOL_BYTES {
        Some(
            ErrorText {
                interface: Interface::ShmPool,
                code: INVALID_FD,
                message: too_large_text(size),
            },
        )
    } else {
        None
    }
}

/// Refuses a pool resize to a size that is not positive or is past
/// [`MAX_SHM_POOL_BYTES`].
pub fn reject_invalid_shm_pool_resize(request: Request) -> (refused: Option<ProtocolError>)
    ensures
        said(refused) == match request {
            Request::ResizePool { size } => resize_refusal(size as int),
            _ => None,
        },
{
    match request {
        Request::ResizePool { size } => {
            if size <= 0 {
                return Some(
                    ProtocolError {
                        interface: Interface::ShmPool,
                        code: INVALID_FD,
                        message: String::from_str("invalid wl_shm_pool size"),
                    },
                );
            }
            if size > MAX_SHM_POOL_BYTES {
                return Some(
                    ProtocolError {
                        interface: Interface::ShmPool,
                        code: INVALID_FD,
                        message: too_large(size),
                    },
                );
            }
            None
        },
        _ => None,
    }
}

/// How the creation of a pool of `size` is answered for its size alone.
pub open spec fn creation_size_refusal(size: int) -> Option<ErrorText> {
    if size > MAX_SHM_POOL_BYTES {
        Some(
            ErrorText {
                interface: Interface::Shm,
                code: INVALID_STRIDE,
                message: too_large_text(size),
            },
        )
    } else {
        None
    }
}

/// Refuses the creation of a pool larger than [`MAX_SHM_POOL_BYTES`].
pub fn reject_oversized_shm_pool_creation(request: Request) -> (refused: Option<ProtocolError>)
    ensures
        said(refused) == match request {
            Request::CreatePool { size, .. } => creation_size_refusal(size as int),
            _ => None,
        },
{
    match request {
        Request::CreatePool { size, .. } => {
            if size <= MAX_SHM_POOL_BYTES {
                return None;
            }
            Some(
                ProtocolError {
                    interface: Interface::Shm,
                    code: INVALID_STRIDE,
                    message: too_large(size),
                },
            )
        },
        _ => None,
    }
}

pub open spec fn unmappable_text(fd: int) -> Seq<char> {
    "Failed to mmap fd "@ + signed_decimal(fd)
}

/// A size that reaches the mapping: the size cap and upstream refuse others.
pub open spec fn mappable_size(size: int) -> bool {
    0 < size <= MAX_SHM_POOL_BYTES
}

/// How the creation of a pool is answered, and what it does to the counts: an
/// fd that cannot be mapped is refused, then a client past its grace under
/// pressure, then one at its cap; any other creation is counted.
pub open spec fn pool_step(
    pools: Map<u64, u32>,
    client: u64,
    size: int,
    fd: int,
    mappable: bool,
    pressured: bool,
) -> (Map<u64, u32>, Option<ErrorText>) {
    let refused = |code: u32, message: Seq<char>|
        (pools, Some(ErrorText { interface: Interface::Shm, code, message }));
    if !mappable_size(size) {
        (pools, None)
    } else if !mappable {
        refused(INVALID_FD, unmappable_text(fd))
    } else if live(pools, client) > PRESSURE_GRACE_POOLS && pressured {
        refused(INVALID_STRIDE, too_many_pools_under_pressure_text())
    } else if live(pools, client) >= MAX_POOLS_PER_CLIENT {
        refused(INVALID_STRIDE, too_many_pools_text())
    } else {
        (claimed(pools, client), None)
    }
}

/// Refuses the creation of a pool on an fd that cannot be mapped, or one that
/// would take its client past its live-pool bounds, and counts any other.
///
/// `mappable` tries the mapping; it is asked only of a size that reaches it,
/// and `pressured` only past the grace, of a pool that can be mapped.
pub fn reject_excess_shm_pool<M: FnOnce(i32, usize) -> bool, P: FnOnce() -> bool>(
    pools: &mut LiveCounts,
    client: u64,
    request: Request,
    mappable: M,
    pressured: P,
) -> (refused: Option<ProtocolError>)
    requires
        old(pools).wf(),
        old(pools).cap() == MAX_POOLS_PER_CLIENT,
        match request {
            Request::CreatePool { size, fd } => mappable_size(size as int) ==> call_requires(
                mappable,
                (fd, size as usize),
            ),
            _ => true,
        },
        match request {
            Request::CreatePool { size, fd } => mappable_size(size as int) && call_ensures(
                mappable,
                (fd, size as usize),
                true,
            ) && live(old(pools)@, client) > PRESSURE_GRACE_POOLS ==> call_requires(pressured, ()),
            _ => true,
        },
    ensures
        final(pools).wf(),
        final(pools).cap() == old(pools).cap(),
        match request {
            Request::CreatePool { size, fd } => exists|m: bool, p: bool|
                {
                    &&& mappable_size(size as int) ==> call_ensures(
                        mappable,
                        (fd, size as usize),
                        m,
                    )
                    &&& mappable_size(size as int) && m && live(old(pools)@, client)
                        > PRESSURE_GRACE_POOLS ==> call_ensures(pressured, (), p)
                    &&& (final(pools)@, said(refused)) == #[trigger] pool_step(
                        old(pools)@,
                        client,
                        size as int,
                        fd as int,
                        m,
                        p,
                    )
                },
            _ => final(pools)@ == old(pools)@ && refused is None,
        },
{
    match request {
        Request::CreatePool { size, fd } => {
            let ghost start = pools@;
            if size <= 0 || size > MAX_SHM_POOL_BYTES {
                assert(pool_step(start, client, size as int, fd as int, false, false).1 is None);
                return None;
            }
            let m: bool = mappable(fd, size as usize);
            if !m {
                let mut message = String::from_str("Failed to mmap fd ");
                push_signed(&mut message, fd);
                assert(pool_step(start, client, size as int, fd as int, m, false).1 is Some);
                return Some(
                    ProtocolError { interface: Interface::Shm, code: INVALID_FD, message },
                );
            }
            let n: u32 = pools.live_for(client);
            let p: bool = pressure_refusal(n, PRESSURE_GRACE_POOLS, pressured);
            if p {
                assert(pool_step(start, client, size as int, fd as int, m, p).1 is Some);
                return Some(
                    ProtocolError {
                        interface: Interface::Shm,
                        code: INVALID_STRIDE,
                        message: too_many_pools_under_pressure(),
                    },
                );
            }
            let full: bool = pools.claim(client);
            assert(pool_step(start, client, size as int, fd as int, m, p).1 is Some == full);
            if !full {
                return None;
            }
            Some(
                ProtocolError {
                    interface: Interface::Shm,
                    code: INVALID_STRIDE,
                    message: too_many_pools(),
                },
            )
        },
        _ => None,
    }
}

/// Where the refusal of a buffer creation is posted, and with which code; none
/// for a request that creates no buffer.
pub open spec fn buffer_factory(request: Request) -> Option<(Interface, u32)> {
    match request {
        Request::CreateShmBuffer => Some((Interface::ShmPool, INVALID_STRIDE)),
        Request::CreateDmabuf { .. } => Some((Interface::BufferParams, INVALID_WL_BUFFER)),
        Request::CreateDmabufImmed { .. } => Some((Interface::BufferParams, INVALID_WL_BUFFER)),
        Request::CreateSinglePixelBuffer => Some((Interface::SinglePixelManager, NO_ERROR_DEFINED)),
        _ => None,
    }
}

/// How a buffer creation is answered, and what it does to the counts: a
/// client past its grace under pressure is refused, then one at its cap; any
/// other creation is counted, whatever kind of buffer it makes.
pub open spec fn buffer_step(
    buffers: Map<u64, u32>,
    client: u64,
    factory: Option<(Interface, u32)>,
    pressured: bool,
) -> (Map<u64, u32>, Option<ErrorText>) {
    match factory {
        None => (buffers, None),
        Some((interface, code)) => {
            if live(buffers, client) > PRESSURE_GRACE_BUFFERS && pressured {
                (
                    buffers,
                    Some(
                        ErrorText {
                            interface,
                            code,
                            message: too_many_buffers_under_pressure_text(),
                        },
                    ),
                )
            } else if live(buffers, client) >= MAX_BUFFERS_PER_CLIENT {
                (
                    buffers,
                    Some(ErrorText { interface, code, message: too_many_buffers_text() }),
                )
            } else {
                (claimed(buffers, client), None)
            }
        },
    }
}

fn factory_of(request: Request) -> (factory: Option<(Interface, u32)>)
    ensures
        factory == buffer_factory(request),
{
    match request {
        Request::CreateShmBuffer => Some((Interface::ShmPool, INVALID_STRIDE)),
        Request::CreateDmabuf { .. } => Some((Interface::BufferParams, INVALID_WL_BUFFER)),
        Request::CreateDmabufImmed { .. } => Some((Interface::BufferParams, INVALID_WL_BUFFER)),
        Request::CreateSinglePixelBuffer => Some((Interface::SinglePixelManager, NO_ERROR_DEFINED)),
        _ => None,
    }
}

/// Refuses a buffer creation that would take its client past its live-buffer
/// bounds, and counts any other. `pressured` is asked only past the grace.
pub fn reject_excess_buffer<P: FnOnce() -> bool>(
    buffers: &mut LiveCounts,
    client: u64,
    request: Request,
    pressured: P,
) -> (refused: Option<ProtocolError>)
    requires
        old(buffers).wf(),
        old(buffers).cap() == MAX_BUFFERS_PER_CLIENT,
        buffer_factory(request) is Some && live(old(buffers)@, client) > PRESSURE_GRACE_BUFFERS
            ==> call_requires(pressured, ()),
    ensures
        final(buffers).wf(),
        final(buffers).cap() == old(buffers).cap(),
        exists|p: bool|
            {
                &&& buffer_factory(request) is Some && live(old(buffers)@, client)
                    > PRESSURE_GRACE_BUFFERS ==> call_ensures(pressured, (), p)
                &&& (final(buffers)@, said(refused)) == #[trigger] buffer_step(
                    old(buffers)@,
                    client,
                    buffer_factory(request),
                    p,
                )
            },
{
    let ghost start = buffers@;
    let (interface, code) = match factory_of(request) {
        None => {
            assert(buffer_step(start, client, buffer_factory(request), false).1 is None);
            return None;
        },
        Some((interface, code)) => (interface, code),
    };
    let n: u32 = buffers.live_for(client);
    let p: bool = pressure_refusal(n, PRESSURE_GRACE_BUFFERS, pressured);
    if p {
        assert(buffer_step(start, client, buffer_factory(request), p).1 is Some);
        return Some(
            ProtocolError { interface, code, message: too_many_buffers_under_pressure() },
        );
    }
    let full: bool = buffers.claim(client);
    assert(buffer_step(start, client, buffer_factory(request), p).1 is Some == full);
    if !full {
        return None;
    }
    Some(ProtocolError { interface, code, message: too_many_buffers() })
}

pub open spec fn layer_size_text(width: nat, height: nat) -> Seq<char> {
    "layer surface size "@ + decimal(width) + "x"@ + decimal(height)
        + " does not fit in the i32 surface-local coordinates wayland uses (maximum "@ + decimal(
        MAX_LAYER_DIMENSION as nat,
    ) + ")"@
}

/// How a layer surface size is answered: one that does not fit surface-local
/// coordinates is invalid.
pub open spec fn layer_size_refusal(width: u32, height: u32) -> Option<ErrorText> {
    if width <= MAX_LAYER_DIMENSION && height <= MAX_LAYER_DIMENSION {
        None
    } else {
        Some(
            ErrorText {
                interface: Interface::LayerSurface,
                code: INVALID_SIZE,
                message: layer_size_text(width as nat, height as nat),
            },
        )
    }
}

/// Refuses a layer surface size that does not fit surface-local coordinates.
pub fn reject_unrepresentable_layer_size(request: Request) -> (refused: Option<ProtocolError>)
    ensures
        said(refused) == match request {
            Request::SetLayerSize { width, height } => layer_size_refusal(width, height),
            _ => None,
        },
{
    match request {
        Request::SetLayerSize { width, height } => {
            if width <= MAX_LAYER_DIMENSION && height <= MAX_LAYER_DIMENSION {
                return None;
            }
            let mut message = String::from_str("layer surface size ");
            push_decimal(&mut message, width as u64);
            message.append("x");
            push_decimal(&mut message, height as u64);
            message.append(
                " does not fit in the i32 surface-local coordinates wayland uses (maximum ",
            );
            push_decimal(&mut message, MAX_LAYER_DIMENSION as u64);
            message.append(")");
            Some(
                ProtocolError { interface: Interface::LayerSurface, code: INVALID_SIZE, message },
            )
        },
        _ => None,
    }
}

pub open spec fn frozen_icon_text() -> Seq<char> {
    "Request made after the icon has been assigned to a toplevel via 'set_icon'"@
}

/// The icon that a request would change.
pub open spec fn changed_icon(request: Request) -> Option<u64> {
    match request {
        Request::SetIconName { icon } => Some(icon),
        Request::AddIconBuffer { icon } => Some(icon),
        _ => None,
    }
}

/// How a change to an icon is answered: one that was assigned to a toplevel
/// is immutable.
pub open spec fn icon_refusal(frozen: Set<u64>, request: Request) -> Option<ErrorText> {
    match changed_icon(request) {
        Some(icon) => if frozen.contains(icon) {
            Some(
                ErrorText {
                    interface: Interface::ToplevelIcon,
                    code: IMMUTABLE,
                    message: frozen_icon_text(),
                },
            )
        } else {
            None
        },
        None => None,
    }
}

/// Refuses a change to an icon that was assigned to a toplevel.
pub fn reject_frozen_toplevel_icon_request(frozen: &HashSet<u64>, request: Request) -> (refused:
    Option<ProtocolError>)
    ensures
        said(refused) == icon_refusal(frozen@, request),
{
    let icon: u64 = match request {
        Request::SetIconName { icon } => icon,
        Request::AddIconBuffer { icon } => icon,
        _ => {
            return None;
        },
    };
    if !frozen.contains(&icon) {
        return None;
    }
    Some(
        ProtocolError {
            interface: Interface::ToplevelIcon,
            code: IMMUTABLE,
            message: String::from_str(
                "Request made after the icon has been assigned to a toplevel via 'set_icon'",
            ),
        },
    )
}

/// The icons frozen once a request is delegated.
pub open spec fn frozen_after(frozen: Set<u64>, request: Request) -> Set<u64> {
    match request {
        Request::SetIcon { assigned: Some(icon) } => frozen.insert(icon),
        _ => frozen,
    }
}

/// Records an icon as frozen when a request assigns it to a toplevel.
pub fn note_assigned_toplevel_icon(frozen: &mut HashSet<u64>, request: Request)
    ensures
        final(frozen)@ == frozen_after(old(frozen)@, request),
{
    match request {
        Request::SetIcon { assigned: Some(icon) } => {
            frozen.insert(icon);
        },
        _ => {},
    }
}

pub open spec fn duplicate_frame_text(cap: nat) -> Seq<char> {
    "create_frame refused: this client already holds the maximum of "@ + decimal(cap)
        + " live capture frames (duplicate_frame)"@
}

/// How a `create_frame` is answered, and what it does to the counts.
pub open spec fn frame_step(frames: Map<u64, u32>, cap: u32, client: u64) -> (
    Map<u64, u32>,
    Option<ErrorText>,
) {
    if live(frames, client) >= cap {
        (
            frames,
            Some(
                ErrorText {
                    interface: Interface::CaptureSession,
                    code: DUPLICATE_FRAME,
                    message: duplicate_frame_text(cap as nat),
                },
            ),
        )
    } else {
        (claimed(frames, client), None)
    }
}

/// Refuses a `create_frame` that would take its client past its live capture
/// frames, and counts any other.
pub fn reject_excess_capture_frame(
    frames: &mut LiveCounts,
    client: u64,
    request: Request,
) -> (refused: Option<ProtocolError>)
    requires
        old(frames).wf(),
    ensures
        final(frames).wf(),
        final(frames).cap() == old(frames).cap(),
        (final(frames)@, said(refused)) == match request {
            Request::CreateCaptureFrame => frame_step(old(frames)@, old(frames).cap(), client),
            _ => (old(frames)@, None),
        },
{
    match request {
        Request::CreateCaptureFrame => {
            if !frames.claim(client) {
                return None;
            }
            let mut message = String::from_str(
                "create_frame refused: this client already holds the maximum of ",
            );
            push_decimal(&mut message, frames.max() as u64);
            message.append(" live capture frames (duplicate_frame)");
            Some(
                ProtocolError {
                    interface: Interface::CaptureSession,
                    code: DUPLICATE_FRAME,
                    message,
                },
            )
        },
        _ => None,
    }
}

/// Whether a `get_subsurface` nests too deep, as `too_deep` decides (and
/// answers the client); no other request is asked about.
pub fn reject_too_deep_subsurface<D: FnOnce(u64, u64) -> bool>(
    request: Request,
    too_deep: D,
) -> (refused: bool)
    requires
        match request {
            Request::GetSubsurface { surface, parent } => call_requires(
                too_deep,
                (surface, parent),
            ),
            _ => true,
        },
    ensures
        match request {
            Request::GetSubsurface { surface, parent } => call_ensures(
                too_deep,
                (surface, parent),
                refused,
            ),
            _ => !refused,
        },
{
    match request {
        Request::GetSubsurface { surface, parent } => too_deep(surface, parent),
        _ => false,
    }
}

/// The surface whose commit is prepared before it is delegated, in case its
/// lock-surface role was destroyed.
pub fn prepare_post_destroy_lock_commit(request: Request) -> (surface: Option<u64>)
    ensures
        surface == match request {
            Request::CommitSurface { surface } => Some(surface),
            _ => None,
        },
{
    match request {
        Request::CommitSurface { surface } => Some(surface),
        _ => None,
    }
}

/// Everything the guards count or remember.
#[verifier::ext_equal]
pub struct Holdings {
    pub pools: Map<u64, u32>,
    pub buffers: Map<u64, u32>,
    pub frames: Map<u64, u32>,
    pub frozen: Set<u64>,
    pub planes: Planes,
    pub ledger: Ledger,
    pub timelines: Map<u64, u32>,
    pub explicit: Set<u64>,
}

impl State {
    pub open spec fn holdings(&self) -> Holdings {
        Holdings {
            pools: self.shm_pools@,
            buffers: self.wl_buffers@,
            frames: self.capture_frames@,
            frozen: self.frozen_icons@,
            planes: self.pending_planes@,
            ledger: self.drm_syncobj.retained@,
            timelines: self.drm_syncobj.timelines@,
            explicit: self.drm_syncobj.explicit@,
        }
    }
}

/// What becomes of a request.
#[derive(Debug, PartialEq, Eq)]
pub enum Verdict {
    /// It is delegated.
    Delegate,
    /// It is refused with this error, and not delegated.
    Refuse(ProtocolError),
    /// It was refused where the decision was made, and is not delegated.
    Refused,
}

/// What a verdict says.
pub enum Answer {
    Delegate,
    Refuse(ErrorText),
    Refused,
}

impl View for Verdict {
    type V = Answer;

    open spec fn view(&self) -> Answer {
        match self {
            Verdict::Delegate => Answer::Delegate,
            Verdict::Refuse(error) => Answer::Refuse(error@),
            Verdict::Refused => Answer::Refused,
        }
    }
}

/// The answer of a guard that refuses with `error`, if it refuses.
pub open spec fn answer_of(error: Option<ErrorText>) -> Answer {
    match error {
        Some(error) => Answer::Refuse(error),
        None => Answer::Delegate,
    }
}

fn verdict_of(error: Option<ProtocolError>) -> (verdict: Verdict)
    ensures
        verdict@ == answer_of(said(error)),
{
    match error {
        Some(error) => Verdict::Refuse(error),
        None => Verdict::Delegate,
    }
}

/// What was observed while a request was judged: whether the pool's fd can be
/// mapped, whether the fd table is pressured, which recorded fds a sweep found
/// live, and whether a subsurface nests too deep.
pub struct RequestSeen {
    pub mappable: bool,
    pub pressured: bool,
    pub live_fds: Set<i32>,
    pub too_deep: bool,
}

/// How a request is answered, and what it does to what is held.
pub open spec fn request_step(
    held: Holdings,
    max_frames: u32,
    client: u64,
    request: Request,
    seen: RequestSeen,
) -> (Holdings, Answer) {
    match request {
        Request::CreatePool { size, fd } => {
            let arrived = Holdings { ledger: held.ledger.without(fd), ..held };
            match creation_size_refusal(size as int) {
                Some(error) => (arrived, Answer::Refuse(error)),
                None => {
                    let (pools, error) = pool_step(
                        held.pools,
                        client,
                        size as int,
                        fd as int,
                        seen.mappable,
                        seen.pressured,
                    );
                    (Holdings { pools, ..arrived }, answer_of(error))
                },
            }
        },
        Request::ResizePool { size } => (held, answer_of(resize_refusal(size as int))),
        Request::CreateShmBuffer | Request::CreateSinglePixelBuffer => {
            let (buffers, error) = buffer_step(
                held.buffers,
                client,
                buffer_factory(request),
                seen.pressured,
            );
            (Holdings { buffers, ..held }, answer_of(error))
        },
        Request::CreateDmabuf { params } | Request::CreateDmabufImmed { params } => {
            let (buffers, error) = buffer_step(
                held.buffers,
                client,
                buffer_factory(request),
                seen.pressured,
            );
            let planes = if error is None {
                without_params(held.planes, client, params)
            } else {
                held.planes
            };
            (Holdings { buffers, planes, ..held }, answer_of(error))
        },
        Request::AddPlane { params, fd } => {
            let (planes, error) = plane_step(held.planes, client, params, seen.pressured);
            (
                Holdings { planes, ledger: held.ledger.without(fd), ..held },
                answer_of(error),
            )
        },
        Request::SetLayerSize { width, height } => (
            held,
            answer_of(layer_size_refusal(width, height)),
        ),
        Request::SetIconName { .. } | Request::AddIconBuffer { .. } => (
            held,
            answer_of(icon_refusal(held.frozen, request)),
        ),
        Request::SetIcon { .. } => (
            Holdings { frozen: frozen_after(held.frozen, request), ..held },
            Answer::Delegate,
        ),
        Request::CreateCaptureFrame => {
            let (frames, error) = frame_step(held.frames, max_frames, client);
            (Holdings { frames, ..held }, answer_of(error))
        },
        Request::GetSubsurface { .. } => (
            held,
            if seen.too_deep {
                Answer::Refused
            } else {
                Answer::Delegate
            },
        ),
        Request::ImportTimeline { fd } => {
            let (ledger, timelines, error) = import_step(
                held.ledger,
                held.timelines,
                client,
                fd,
                seen.live_fds,
                seen.pressured,
            );
            (Holdings { ledger, timelines, ..held }, answer_of(error))
        },
        Request::CommitSurface { .. } | Request::Other => (held, Answer::Delegate),
    }
}

/// Whether judging a request tries a mapping.
pub open spec fn asks_mapping(request: Request) -> bool {
    match request {
        Request::CreatePool { size, .. } => mappable_size(size as int),
        _ => false,
    }
}

/// Whether judging a request observes the fd table.
pub open spec fn asks_pressure(
    held: Holdings,
    client: u64,
    request: Request,
    seen: RequestSeen,
) -> bool {
    match request {
        Request::CreatePool { size, .. } => mappable_size(size as int) && seen.mappable && live(
            held.pools,
            client,
        ) > PRESSURE_GRACE_POOLS,
        Request::AddPlane { .. } => observes(pending(held.planes, client) as int),
        Request::ImportTimeline { fd } => import_admission(
            held.ledger,
            client,
            fd,
            seen.live_fds,
            seen.pressured,
        ).observed,
        _ => buffer_factory(request) is Some && live(held.buffers, client)
            > PRESSURE_GRACE_BUFFERS,
    }
}

/// Whether judging a request sweeps its client's timeline records.
pub open spec fn asks_sweep(
    held: Holdings,
    client: u64,
    request: Request,
    seen: RequestSeen,
) -> bool {
    match request {
        Request::ImportTimeline { fd } => import_admission(
            held.ledger,
            client,
            fd,
            seen.live_fds,
            seen.pressured,
        ).swept,
        _ => false,
    }
}

/// `seen` is what the four observations answered, as far as judging the
/// request asks for them.
pub open spec fn observed_by<
    M: FnOnce(i32, usize) -> bool,
    P: FnOnce() -> bool,
    F: Fn(i32) -> bool,
    D: FnOnce(u64, u64) -> bool,
>(
    held: Holdings,
    client: u64,
    request: Request,
    seen: RequestSeen,
    mappable: M,
    pressured: P,
    still_held: F,
    too_deep: D,
) -> bool {
    &&& asks_pressure(held, client, request, seen) ==> call_ensures(pressured, (), seen.pressured)
    &&& match request {
        Request::CreatePool { size, fd } => asks_mapping(request) ==> call_ensures(
            mappable,
            (fd, size as usize),
            seen.mappable,
        ),
        Request::ImportTimeline { fd } => asks_sweep(held, client, request, seen) ==> answered(
            still_held,
            held.ledger.without(fd).fds_of(client),
            seen.live_fds,
        ),
        Request::GetSubsurface { surface, parent } => call_ensures(
            too_deep,
            (surface, parent),
            seen.too_deep,
        ),
        _ => true,
    }
}

impl State {
    /// Judges a request of `client`: answers one that must not be served, and
    /// otherwise counts what serving it will make the compositor hold.
    ///
    /// `mappable` tries a pool's mapping, `pressured` observes the fd table,
    /// `still_held` whether a recorded fd number is still a timeline, and
    /// `too_deep` judges a subsurface.
    #[verifier::rlimit(60)]
    pub fn request<
        M: FnOnce(i32, usize) -> bool,
        P: FnOnce() -> bool,
        F: Fn(i32) -> bool,
        D: FnOnce(u64, u64) -> bool,
    >(
        &mut self,
        client: u64,
        request: Request,
        mappable: M,
        pressured: P,
        still_held: F,
        too_deep: D,
    ) -> (verdict: Verdict)
        requires
            old(self).wf(),
            match request {
                Request::CreatePool { size, fd } => asks_mapping(request) ==> call_requires(
                    mappable,
                    (fd, size as usize),
                ),
                Request::GetSubsurface { surface, parent } => call_requires(
                    too_deep,
                    (surface, parent),
                ),
                Request::ImportTimeline { fd } => import_may_sweep(
                    old(self).drm_syncobj.retained@,
                    client,
                    fd,
                    pressured,
                ) ==> answerable(still_held, old(self).drm_syncobj.retained@.without(fd).fds_of(client)),
                _ => true,
            },
            may_ask_pressure(
                old(self).holdings(),
                client,
                request,
                mappable,
                still_held,
            ) ==> call_requires(pressured, ()),
        ensures
            final(self).wf(),
            final(self).capture_frames.cap() == old(self).capture_frames.cap(),
            only_holdings_changed(*old(self), *final(self)),
            exists|seen: RequestSeen|
                {
                    &&& observed_by(
                        old(self).holdings(),
                        client,
                        request,
                        seen,
                        mappable,
                        pressured,
                        still_held,
                        too_deep,
                    )
                    &&& (final(self).holdings(), verdict@) == #[trigger] request_step(
                        old(self).holdings(),
                        old(self).capture_frames.cap(),
                        client,
                        request,
                        seen,
                    )
                },
    {
        let ghost held = self.holdings();
        let ghost max_frames = self.capture_frames.cap();
        proof {
            self.pending_planes.lemma_finite();
        }
        let ghost blank = RequestSeen {
            mappable: false,
            pressured: false,
            live_fds: Set::empty(),
            too_deep: false,
        };
        match request {
            Request::CreatePool { size, fd } => {
                self.drm_syncobj.fd_arrived(fd);
                if let Some(error) = reject_oversized_shm_pool_creation(request) {
                    assert(self.holdings() =~= request_step(held, max_frames, client, request, blank).0);
                    return Verdict::Refuse(error);
                }
                let refused = reject_excess_shm_pool(
                    &mut self.shm_pools,
                    client,
                    request,
                    mappable,
                    pressured,
                );
                proof {
                    let (m, p) = choose|m: bool, p: bool|
                        {
                            &&& mappable_size(size as int) ==> call_ensures(
                                mappable,
                                (fd, size as usize),
                                m,
                            )
                            &&& mappable_size(size as int) && m && live(held.pools, client)
                                > PRESSURE_GRACE_POOLS ==> call_ensures(pressured, (), p)
                            &&& (self.shm_pools@, said(refused)) == #[trigger] pool_step(
                                held.pools,
                                client,
                                size as int,
                                fd as int,
                                m,
                                p,
                            )
                        };
                    let seen = RequestSeen { mappable: m, pressured: p, ..blank };
                    assert(self.holdings() =~= request_step(held, max_frames, client, request, seen).0);
                }
                verdict_of(refused)
            },
            Request::ResizePool { .. } => {
                let refused = reject_invalid_shm_pool_resize(request);
                assert(self.holdings() =~= request_step(held, max_frames, client, request, blank).0);
                verdict_of(refused)
            },
            Request::CreateShmBuffer | Request::CreateSinglePixelBuffer => {
                let refused = reject_excess_buffer(&mut self.wl_buffers, client, request, pressured);
                proof {
                    let p = choose|p: bool|
                        {
                            &&& buffer_factory(request) is Some && live(held.buffers, client)
                                > PRESSURE_GRACE_BUFFERS ==> call_ensures(pressured, (), p)
                            &&& (self.wl_buffers@, said(refused)) == #[trigger] buffer_step(
                                held.buffers,
                                client,
                                buffer_factory(request),
                                p,
                            )
                        };
                    let seen = RequestSeen { pressured: p, ..blank };
                    assert(self.holdings() =~= request_step(held, max_frames, client, request, seen).0);
                }
                verdict_of(refused)
            },
            Request::CreateDmabuf { params } | Request::CreateDmabufImmed { params } => {
                let refused = reject_excess_buffer(&mut self.wl_buffers, client, request, pressured);
                let ghost p = choose|p: bool|
                    {
                        &&& buffer_factory(request) is Some && live(held.buffers, client)
                            > PRESSURE_GRACE_BUFFERS ==> call_ensures(pressured, (), p)
                        &&& (self.wl_buffers@, said(refused)) == #[trigger] buffer_step(
                            held.buffers,
                            client,
                            buffer_factory(request),
                            p,
                        )
                    };
                if refused.is_none() {
                    self.pending_planes.release(client, params);
                    proof {
                        lemma_release_keeps_the_bound(held.planes, client, params);
                    }
                }
                proof {
                    let seen = RequestSeen { pressured: p, ..blank };
                    assert(self.holdings() =~= request_step(held, max_frames, client, request, seen).0);
                }
                verdict_of(refused)
            },
            Request::AddPlane { params, fd } => {
                self.drm_syncobj.fd_arrived(fd);
                let refused = reject_excess_plane(&mut self.pending_planes, client, params, pressured);
                proof {
                    let p = choose|p: bool|
                        {
                            &&& observes(pending(held.planes, client) as int) ==> call_ensures(
                                pressured,
                                (),
                                p,
                            )
                            &&& (self.pending_planes@, said(refused)) == #[trigger] plane_step(
                                held.planes,
                                client,
                                params,
                                p,
                            )
                        };
                    let seen = RequestSeen { pressured: p, ..blank };
                    assert(self.holdings() =~= request_step(held, max_frames, client, request, seen).0);
                    lemma_add_keeps_the_bound(held.planes, client, params, p);
                }
                verdict_of(refused)
            },
            Request::SetLayerSize { .. } => {
                let refused = reject_unrepresentable_layer_size(request);
                assert(self.holdings() =~= request_step(held, max_frames, client, request, blank).0);
                verdict_of(refused)
            },
            Request::SetIconName { .. } | Request::AddIconBuffer { .. } => {
                let refused = reject_frozen_toplevel_icon_request(&self.frozen_icons, request);
                assert(self.holdings() =~= request_step(held, max_frames, client, request, blank).0);
                verdict_of(refused)
            },
            Request::SetIcon { .. } => {
                note_assigned_toplevel_icon(&mut self.frozen_icons, request);
                assert(self.holdings() =~= request_step(held, max_frames, client, request, blank).0);
                Verdict::Delegate
            },
            Request::CreateCaptureFrame => {
                let refused = reject_excess_capture_frame(
                    &mut self.capture_frames,
                    client,
                    request,
                );
                assert(self.holdings() =~= request_step(held, max_frames, client, request, blank).0);
                verdict_of(refused)
            },
            Request::GetSubsurface { .. } => {
                let refused: bool = reject_too_deep_subsurface(request, too_deep);
                let ghost seen = RequestSeen { too_deep: refused, ..blank };
                assert(self.holdings() =~= request_step(held, max_frames, client, request, seen).0);
                if refused {
                    Verdict::Refused
                } else {
                    Verdict::Delegate
                }
            },
            Request::ImportTimeline { fd } => {
                let refused = self.drm_syncobj.reject_excess_timeline(
                    client,
                    fd,
                    still_held,
                    pressured,
                );
                proof {
                    let (live_fds, p) = choose|live_fds: Set<i32>, p: bool|
                        {
                            let a = #[trigger] import_admission(
                                held.ledger,
                                client,
                                fd,
                                live_fds,
                                p,
                            );
                            &&& a.swept ==> answered(
                                still_held,
                                held.ledger.without(fd).fds_of(client),
                                live_fds,
                            )
                            &&& a.observed ==> call_ensures(pressured, (), p)
                            &&& (
                                self.drm_syncobj.retained@,
                                self.drm_syncobj.timelines@,
                                said(refused),
                            ) == import_step(held.ledger, held.timelines, client, fd, live_fds, p)
                        };
                    let seen = RequestSeen { live_fds, pressured: p, ..blank };
                    assert(self.holdings() =~= request_step(held, max_frames, client, request, seen).0);
                }
                verdict_of(refused)
            },
            Request::CommitSurface { .. } | Request::Other => {
                assert(self.holdings() =~= request_step(held, max_frames, client, request, blank).0);
                Verdict::Delegate
            },
        }
    }
}

/// Whether a client is past the grace of what a request asks for.
pub open spec fn past_a_grace(held: Holdings, client: u64, request: Request) -> bool {
    match request {
        Request::CreatePool { .. } => live(held.pools, client) > PRESSURE_GRACE_POOLS,
        Request::AddPlane { .. } => observes(pending(held.planes, client) as int),
        Request::ImportTimeline { fd } => held.ledger.without(fd).held(client)
            > PRESSURE_GRACE_TIMELINES,
        _ => buffer_factory(request) is Some && live(held.buffers, client)
            > PRESSURE_GRACE_BUFFERS,
    }
}

/// Whether judging a request may observe the fd table: its client is past the
/// grace of what it asks for, and nothing settles the request before that.
pub open spec fn may_ask_pressure<M: FnOnce(i32, usize) -> bool, F: Fn(i32) -> bool>(
    held: Holdings,
    client: u64,
    request: Request,
    mappable: M,
    still_held: F,
) -> bool {
    match request {
        Request::CreatePool { size, fd } => {
            &&& asks_mapping(request)
            &&& call_ensures(mappable, (fd, size as usize), true)
            &&& live(held.pools, client) > PRESSURE_GRACE_POOLS
        },
        Request::AddPlane { .. } => observes(pending(held.planes, client) as int),
        Request::ImportTimeline { fd } => import_may_observe(held.ledger, client, fd, still_held),
        _ => buffer_factory(request) is Some && live(held.buffers, client)
            > PRESSURE_GRACE_BUFFERS,
    }
}

/// Nothing but what the guards count or remember differs.
pub open spec fn only_holdings_changed(before: State, after: State) -> bool {
    after == (State {
        shm_pools: after.shm_pools,
        wl_buffers: after.wl_buffers,
        capture_frames: after.capture_frames,
        frozen_icons: after.frozen_icons,
        pending_planes: after.pending_planes,
        drm_syncobj: crate::drm_syncobj::DrmSyncobj {
            retained: after.drm_syncobj.retained,
            timelines: after.drm_syncobj.timelines,
            explicit: after.drm_syncobj.explicit,
            ..before.drm_syncobj
        },
        ..before
    })
}

proof fn lemma_release_keeps_the_bound(planes: Planes, client: u64, params: u64)
    requires
        planes.dom().finite(),
        forall|c: u64| #[trigger] pending(planes, c) <= MAX_PENDING_PLANES_PER_CLIENT,
    ensures
        forall|c: u64| #[trigger]
            pending(without_params(planes, client, params), c) <= MAX_PENDING_PLANES_PER_CLIENT,
{
    assert forall|c: u64| #[trigger]
        pending(without_params(planes, client, params), c) <= MAX_PENDING_PLANES_PER_CLIENT by {
        assert(pending(planes, c) <= MAX_PENDING_PLANES_PER_CLIENT);
        if c == client {
            a_release_gives_back_exactly_once(planes, client, params);
        } else {
            the_bound_is_per_client(planes, client, params, c);
        }
    }
}

proof fn lemma_add_keeps_the_bound(planes: Planes, client: u64, params: u64, pressured: bool)
    requires
        planes.dom().finite(),
        forall|c: u64| #[trigger] pending(planes, c) <= MAX_PENDING_PLANES_PER_CLIENT,
    ensures
        forall|c: u64| #[trigger]
            pending(plane_step(planes, client, params, pressured).0, c)
                <= MAX_PENDING_PLANES_PER_CLIENT,
{
    let after = plane_step(planes, client, params, pressured).0;
    assert forall|c: u64| #[trigger] pending(after, c) <= MAX_PENDING_PLANES_PER_CLIENT by {
        assert(pending(planes, c) <= MAX_PENDING_PLANES_PER_CLIENT);
        assert(pending(planes, client) <= MAX_PENDING_PLANES_PER_CLIENT);
        if c == client {
            an_add_counts_one(planes, client, params);
        } else {
            the_bound_is_per_client(planes, client, params, c);
        }
    }
}

/// What an object's destruction leaves to do: queue a drain of the renderers'
/// caches, redraw the lock screen, or neutralise the layer surfaces whose role
/// is gone.
#[derive(Clone, Copy, Debug, PartialEq, Eq, Structural)]
pub struct Aftermath {
    pub queue_drain: bool,
    pub redraw_lock: bool,
    pub neutralize_layers: bool,
}

/// What an object's destruction does to what is held.
pub open spec fn destroyed_step(held: Holdings, client: u64, object: Destroyed) -> Holdings {
    match object {
        Destroyed::Pool => Holdings { pools: forgotten(held.pools, client), ..held },
        Destroyed::Buffer { buffer } => Holdings {
            buffers: forgotten(held.buffers, client),
            explicit: held.explicit.remove(buffer),
            ..held
        },
        Destroyed::Params { params } => Holdings {
            planes: without_params(held.planes, client, params),
            ..held
        },
        Destroyed::Icon { icon } => Holdings { frozen: held.frozen.remove(icon), ..held },
        Destroyed::CaptureFrame => Holdings { frames: forgotten(held.frames, client), ..held },
        Destroyed::Timeline => Holdings { timelines: forgotten(held.timelines, client), ..held },
        _ => held,
    }
}

/// Whether an object's destruction may have made a cached import collectable.
pub open spec fn may_free_an_import(object: Destroyed) -> bool {
    object is Buffer || object is Surface
}

/// What an object's destruction leaves to do in `state`.
pub open spec fn aftermath_of(state: State, object: Destroyed) -> Aftermath {
    Aftermath {
        queue_drain: may_free_an_import(object) && state.imports_dmabufs
            && !state.dmabuf_drain_queued,
        redraw_lock: object is LockSurface,
        neutralize_layers: object is LayerSurface,
    }
}

impl State {
    /// Releases what a destroyed object of `client` was counted for, and
    /// answers what its destruction leaves to do.
    pub fn destroyed(&mut self, client: u64, object: Destroyed) -> (aftermath: Aftermath)
        requires
            old(self).wf(),
        ensures
            final(self).wf(),
            final(self).capture_frames.cap() == old(self).capture_frames.cap(),
            final(self).holdings() == destroyed_step(old(self).holdings(), client, object),
            aftermath == aftermath_of(*old(self), object),
            only_holdings_changed(
                State {
                    dmabuf_drain_queued: old(self).dmabuf_drain_queued || aftermath.queue_drain,
                    ..*old(self)
                },
                *final(self),
            ),
    {
        let mut aftermath = Aftermath {
            queue_drain: false,
            redraw_lock: false,
            neutralize_layers: false,
        };
        let ghost held = self.holdings();
        proof {
            self.pending_planes.lemma_finite();
        }
        match object {
            Destroyed::Pool => {
                self.shm_pools.forget(client);
            },
            Destroyed::Buffer { buffer } => {
                self.wl_buffers.forget(client);
                if !self.drm_syncobj.explicit.is_empty() {
                    self.drm_syncobj.explicit.forget(buffer);
                }
                aftermath.queue_drain = schedule_cache_drain(self);
            },
            Destroyed::Params { params } => {
                self.pending_planes.release(client, params);
                proof {
                    lemma_release_keeps_the_bound(held.planes, client, params);
                }
            },
            Destroyed::Surface => {
                aftermath.queue_drain = schedule_cache_drain(self);
            },
            Destroyed::LockSurface => {
                aftermath.redraw_lock = true;
            },
            Destroyed::LayerSurface => {
                aftermath.neutralize_layers = true;
            },
            Destroyed::Icon { icon } => {
                self.frozen_icons.remove(&icon);
            },
            Destroyed::CaptureFrame => {
                self.capture_frames.forget(client);
            },
            Destroyed::Timeline => {
                self.drm_syncobj.forget_timeline(client);
            },
            Destroyed::Other => {},
        }
        assert(self.holdings() =~= destroyed_step(held, client, object));
        aftermath
    }
}

/// One client's request never changes what is counted for another: a greedy
/// client can only ever disconnect itself.
pub proof fn requests_touch_their_own_client_only(
    held: Holdings,
    max_frames: u32,
    client: u64,
    request: Request,
    seen: RequestSeen,
    other: u64,
)
    requires
        held.planes.dom().finite(),
        client != other,
    ensures
        ({
            let after = request_step(held, max_frames, client, request, seen).0;
            &&& live(after.pools, other) == live(held.pools, other)
            &&& live(after.buffers, other) == live(held.buffers, other)
            &&& live(after.frames, other) == live(held.frames, other)
            &&& live(after.timelines, other) == live(held.timelines, other)
            &&& pending(after.planes, other) == pending(held.planes, other)
        }),
{
    match request {
        Request::AddPlane { params, .. } => {
            the_bound_is_per_client(held.planes, client, params, other);
        },
        Request::CreateDmabuf { params } => {
            the_bound_is_per_client(held.planes, client, params, other);
        },
        Request::CreateDmabufImmed { params } => {
            the_bound_is_per_client(held.planes, client, params, other);
        },
        _ => {},
    }
}

/// A refused request counts nothing and freezes nothing.
pub proof fn a_refused_request_counts_nothing(
    held: Holdings,
    max_frames: u32,
    client: u64,
    request: Request,
    seen: RequestSeen,
)
    requires
        !(request_step(held, max_frames, client, request, seen).1 is Delegate),
    ensures
        ({
            let after = request_step(held, max_frames, client, request, seen).0;
            after == (Holdings { ledger: after.ledger, ..held })
        }),
{
}

/// A client that holds no more than its graces is never refused for another's
/// greed: its requests are answered the same whether or not the fd table is
/// pressured.
pub proof fn pressure_never_touches_a_client_under_its_graces(
    held: Holdings,
    max_frames: u32,
    client: u64,
    request: Request,
    seen: RequestSeen,
    pressured: bool,
)
    requires
        !past_a_grace(held, client, request),
    ensures
        request_step(held, max_frames, client, request, seen) == request_step(
            held,
            max_frames,
            client,
            request,
            RequestSeen { pressured, ..seen },
        ),
        !asks_pressure(held, client, request, seen),
{
}

/// Every served creation, once its object is destroyed, leaves no trace in
/// the counts.
pub proof fn a_creation_destroyed_leaves_no_trace(
    held: Holdings,
    max_frames: u32,
    client: u64,
    request: Request,
    seen: RequestSeen,
    object: Destroyed,
)
    requires
        request_step(held, max_frames, client, request, seen).1 is Delegate,
        match request {
            Request::CreatePool { size, .. } => mappable_size(size as int) && object is Pool,
            Request::CreateShmBuffer => object is Buffer,
            Request::CreateSinglePixelBuffer => object is Buffer,
            Request::CreateDmabuf { .. } => object is Buffer,
            Request::CreateDmabufImmed { .. } => object is Buffer,
            Request::CreateCaptureFrame => object is CaptureFrame,
            Request::ImportTimeline { .. } => object is Timeline,
            _ => false,
        },
        held.pools.contains_key(client) ==> held.pools[client] > 0,
        held.buffers.contains_key(client) ==> held.buffers[client] > 0,
        held.frames.contains_key(client) ==> held.frames[client] > 0,
        held.timelines.contains_key(client) ==> held.timelines[client] > 0,
    ensures
        ({
            let made = request_step(held, max_frames, client, request, seen).0;
            let after = destroyed_step(made, client, object);
            &&& after.pools == held.pools
            &&& after.buffers == held.buffers
            &&& after.frames == held.frames
            &&& after.timelines == held.timelines
        }),
{
    let made = request_step(held, max_frames, client, request, seen).0;
    let after = destroyed_step(made, client, object);
    assert(after.pools =~= held.pools);
    assert(after.buffers =~= held.buffers);
    assert(after.frames =~= held.frames);
    assert(after.timelines =~= held.timelines);
}

/// A request on an icon that was assigned to a toplevel is refused until the
/// icon is destroyed, whatever came in between.
pub proof fn an_assigned_icon_stays_frozen(
    held: Holdings,
    max_frames: u32,
    client: u64,
    request: Request,
    seen: RequestSeen,
    icon: u64,
)
    ensures
        request == (Request::SetIcon { assigned: Some(icon) }) ==> request_step(
            held,
            max_frames,
            client,
            request,
            seen,
        ).0.frozen.contains(icon),
        held.frozen.contains(icon) ==> request_step(
            held,
            max_frames,
            client,
            request,
            seen,
        ).0.frozen.contains(icon),
        held.frozen.contains(icon) && changed_icon(request) == Some(icon) ==> request_step(
            held,
            max_frames,
            client,
            request,
            seen,
        ).1 is Refuse,
        !destroyed_step(held, client, Destroyed::Icon { icon }).frozen.contains(icon),
{
}

/// Either creation request on a params object that is served consumes the object: it holds no
/// plane afterwards, its client's pending planes have fallen by exactly what it held, and no other
/// object's have changed. A creation that is refused consumes nothing. Both requests are answered
/// alike.
pub proof fn a_created_buffer_consumes_its_params(
    held: Holdings,
    max_frames: u32,
    client: u64,
    params: u64,
    seen: RequestSeen,
    other: (u64, u64),
)
    requires
        held.planes.dom().finite(),
    ensures
        ({
            let (created, answer) = request_step(
                held,
                max_frames,
                client,
                Request::CreateDmabuf { params },
                seen,
            );
            let (immed, answer_immed) = request_step(
                held,
                max_frames,
                client,
                Request::CreateDmabufImmed { params },
                seen,
            );
            let on_it = if held.planes.contains_key((client, params)) {
                held.planes[(client, params)] as nat
            } else {
                0
            };
            &&& answer == answer_immed
            &&& created == immed
            &&& answer is Delegate ==> {
                &&& !created.planes.contains_key((client, params))
                &&& pending(created.planes, client) + on_it == pending(held.planes, client)
                &&& other != (client, params) ==> created.planes.contains_key(other)
                    == held.planes.contains_key(other) && created.planes[other]
                    == held.planes[other]
            }
            &&& !(answer is Delegate) ==> created.planes == held.planes
        }),
{
    a_release_gives_back_exactly_once(held.planes, client, params);
}

/// A params object that was filled and made into a buffer leaves its client as many pending planes
/// as it had before: planes pend only until a buffer is made of them, by either request.
pub proof fn planes_pend_only_until_a_buffer_is_made(
    held: Holdings,
    max_frames: u32,
    client: u64,
    params: u64,
    fd: i32,
    immed: bool,
    seen: RequestSeen,
    seen_at_creation: RequestSeen,
)
    requires
        held.planes.dom().finite(),
        !held.planes.contains_key((client, params)),
    ensures
        ({
            let (added, answer) = request_step(
                held,
                max_frames,
                client,
                Request::AddPlane { params, fd },
                seen,
            );
            let request = if immed {
                Request::CreateDmabufImmed { params }
            } else {
                Request::CreateDmabuf { params }
            };
            let (made, served) = request_step(added, max_frames, client, request, seen_at_creation);
            answer is Delegate && served is Delegate ==> {
                &&& pending(added.planes, client) == pending(held.planes, client) + 1
                &&& pending(made.planes, client) == pending(held.planes, client)
                &&& made.planes == held.planes
            }
        }),
{
    let added = request_step(
        held,
        max_frames,
        client,
        Request::AddPlane { params, fd },
        seen,
    ).0;
    if pending(held.planes, client) < MAX_PENDING_PLANES_PER_CLIENT {
        an_add_counts_one(held.planes, client, params);
    }
    assert(added.planes.remove((client, params)) =~= held.planes.remove((client, params)));
    assert(held.planes.remove((client, params)) =~= held.planes);
}

/// Whether a request makes a buffer.
pub open spec fn makes_a_buffer(request: Request) -> bool {
    ||| request is CreateShmBuffer
    ||| request is CreateSinglePixelBuffer
    ||| request is CreateDmabuf
    ||| request is CreateDmabufImmed
}

/// A served request adds one to the count of what it makes the compositor hold, for its client and
/// nothing else: a pool (of a size that is mapped), a buffer of any kind, a capture frame, a
/// timeline or a pending plane. A request that makes none of these leaves that count alone.
pub proof fn a_served_request_counts_what_it_makes(
    held: Holdings,
    max_frames: u32,
    client: u64,
    request: Request,
    seen: RequestSeen,
)
    requires
        held.planes.dom().finite(),
        request_step(held, max_frames, client, request, seen).1 is Delegate,
    ensures
        ({
            let after = request_step(held, max_frames, client, request, seen).0;
            let pool = request is CreatePool && request->CreatePool_size > 0;
            &&& live(after.pools, client) == live(held.pools, client) + if pool {
                1int
            } else {
                0
            }
            &&& !pool ==> after.pools == held.pools
            &&& live(after.buffers, client) == live(held.buffers, client) + if makes_a_buffer(
                request,
            ) {
                1int
            } else {
                0
            }
            &&& !makes_a_buffer(request) ==> after.buffers == held.buffers
            &&& live(after.frames, client) == live(held.frames, client)
                + if request is CreateCaptureFrame {
                1int
            } else {
                0
            }
            &&& !(request is CreateCaptureFrame) ==> after.frames == held.frames
            &&& live(after.timelines, client) == live(held.timelines, client)
                + if request is ImportTimeline {
                1int
            } else {
                0
            }
            &&& !(request is ImportTimeline) ==> after.timelines == held.timelines
            &&& request is AddPlane ==> pending(after.planes, client) == pending(
                held.planes,
                client,
            ) + 1
            &&& !(request is AddPlane || request is CreateDmabuf || request is CreateDmabufImmed)
                ==> after.planes == held.planes
            &&& after.explicit == held.explicit
        }),
{
    match request {
        Request::AddPlane { params, .. } => {
            an_add_counts_one(held.planes, client, params);
        },
        _ => {},
    }
}

/// A pool is refused past 512 MiB, where its fd cannot be mapped, from 128 live pools on, and past
/// 64 while the fd table is pressured, and nowhere else; a size that is not positive is left to
/// what the request is delegated to. A resize is refused to a size that is not positive or past
/// 512 MiB.
pub proof fn a_pool_is_refused_at_its_bounds(
    held: Holdings,
    max_frames: u32,
    client: u64,
    size: i32,
    fd: i32,
    seen: RequestSeen,
)
    ensures
        ({
            let answer = request_step(
                held,
                max_frames,
                client,
                Request::CreatePool { size, fd },
                seen,
            ).1;
            let resized = request_step(
                held,
                max_frames,
                client,
                Request::ResizePool { size },
                seen,
            );
            let held_pools = live(held.pools, client);
            let largest = 512 * 1024 * 1024;
            &&& answer is Refuse <==> size > largest || size > 0 && (!seen.mappable || held_pools
                >= 128 || held_pools > 64 && seen.pressured)
            &&& !(answer is Refused)
            &&& answer is Refuse ==> answer->Refuse_0.interface == Interface::Shm
            &&& answer is Refuse && 0 < size <= largest && !seen.mappable
                ==> answer->Refuse_0.code == 2
            &&& answer is Refuse && (size > largest || seen.mappable) ==> answer->Refuse_0.code
                == 1
            &&& resized.0 == held
            &&& resized.1 is Refuse <==> size <= 0 || size > largest
            &&& resized.1 is Refuse || resized.1 is Delegate
            &&& resized.1 is Refuse ==> resized.1->Refuse_0.interface == Interface::ShmPool
                && resized.1->Refuse_0.code == 2
        }),
{
}

/// A buffer is refused from 512 live buffers on, and past 128 while the fd table is pressured,
/// whatever kind of buffer it is, on the object that makes it.
pub proof fn a_buffer_is_refused_at_its_bounds(
    held: Holdings,
    max_frames: u32,
    client: u64,
    request: Request,
    seen: RequestSeen,
)
    requires
        makes_a_buffer(request),
    ensures
        ({
            let answer = request_step(held, max_frames, client, request, seen).1;
            let held_buffers = live(held.buffers, client);
            &&& answer is Refuse <==> held_buffers >= 512 || held_buffers > 128 && seen.pressured
            &&& !(answer is Refused)
            &&& answer is Refuse ==> {
                let error = answer->Refuse_0;
                &&& request is CreateShmBuffer ==> error.interface == Interface::ShmPool
                    && error.code == 1
                &&& request is CreateSinglePixelBuffer ==> error.interface
                    == Interface::SinglePixelManager && error.code == 0
                &&& request is CreateDmabuf || request is CreateDmabufImmed ==> error.interface
                    == Interface::BufferParams && error.code == 7
            }
        }),
{
}

/// A plane is refused from 32 pending planes on, and past 8 while the fd table is pressured, by
/// disconnecting the client out of memory; a capture frame from the session's bound on; a layer
/// size past what an `i32` holds in either direction; a change to an icon once it was assigned; and
/// a subsurface where it nests too deep. Nothing else is refused at all.
pub proof fn the_other_requests_are_refused_at_their_bounds(
    held: Holdings,
    max_frames: u32,
    client: u64,
    request: Request,
    seen: RequestSeen,
)
    ensures
        ({
            let answer = request_step(held, max_frames, client, request, seen).1;
            match request {
                Request::AddPlane { .. } => {
                    let planes = pending(held.planes, client);
                    &&& answer is Refuse <==> planes >= 32 || planes > 8 && seen.pressured
                    &&& answer is Refuse || answer is Delegate
                    &&& answer is Refuse ==> answer->Refuse_0.interface == Interface::Display
                        && answer->Refuse_0.code == 2
                },
                Request::CreateCaptureFrame => {
                    &&& answer is Refuse <==> live(held.frames, client) >= max_frames
                    &&& answer is Refuse || answer is Delegate
                    &&& answer is Refuse ==> answer->Refuse_0.interface
                        == Interface::CaptureSession && answer->Refuse_0.code == 1
                },
                Request::SetLayerSize { width, height } => {
                    &&& answer is Refuse <==> width > i32::MAX || height > i32::MAX
                    &&& answer is Refuse || answer is Delegate
                    &&& answer is Refuse ==> answer->Refuse_0.interface == Interface::LayerSurface
                        && answer->Refuse_0.code == 1
                },
                Request::SetIconName { icon } => {
                    &&& answer is Refuse <==> held.frozen.contains(icon)
                    &&& answer is Refuse || answer is Delegate
                    &&& answer is Refuse ==> answer->Refuse_0.interface == Interface::ToplevelIcon
                        && answer->Refuse_0.code == 2
                },
                Request::AddIconBuffer { icon } => {
                    &&& answer is Refuse <==> held.frozen.contains(icon)
                    &&& answer is Refuse || answer is Delegate
                    &&& answer is Refuse ==> answer->Refuse_0.interface == Interface::ToplevelIcon
                        && answer->Refuse_0.code == 2
                },
                Request::GetSubsurface { .. } => {
                    &&& answer is Refused <==> seen.too_deep
                    &&& answer is Refused || answer is Delegate
                },
                Request::SetIcon { .. } => answer is Delegate,
                Request::CommitSurface { .. } => answer is Delegate,
                Request::Other => answer is Delegate,
                _ => true,
            }
        }),
{
}

/// Icons are frozen by being assigned to a toplevel, and by nothing else; and a number that arrives
/// with a pool or a plane, served or not, has no timeline record any longer, while every other
/// record, and every sweep mark, is as it was. No other request but an import touches the records.
pub proof fn requests_freeze_and_forget_only_what_they_name(
    held: Holdings,
    max_frames: u32,
    client: u64,
    request: Request,
    seen: RequestSeen,
    icon: u64,
    number: i32,
)
    ensures
        ({
            let after = request_step(held, max_frames, client, request, seen).0;
            let arrives = match request {
                Request::CreatePool { fd, .. } => Some(fd),
                Request::AddPlane { fd, .. } => Some(fd),
                _ => None,
            };
            &&& after.frozen.contains(icon) <==> held.frozen.contains(icon) || request == (
            Request::SetIcon { assigned: Some(icon) })
            &&& arrives == Some(number) ==> !after.ledger.owner.contains_key(number)
            &&& !(request is ImportTimeline) ==> {
                &&& after.ledger.sweep_at == held.ledger.sweep_at
                &&& arrives != Some(number) ==> after.ledger.owner.contains_key(number)
                    == held.ledger.owner.contains_key(number) && after.ledger.owner[number]
                    == held.ledger.owner[number]
            }
        }),
{
}

/// The fd table is observed only for a client past the grace of what it asks for, of a request that
/// nothing else refuses first; a mapping is tried only of a pool of a size that is mapped, on its fd
/// and in its size.
pub proof fn observations_are_made_where_they_decide<
    M: FnOnce(i32, usize) -> bool,
    P: FnOnce() -> bool,
    F: Fn(i32) -> bool,
    D: FnOnce(u64, u64) -> bool,
>(
    held: Holdings,
    client: u64,
    request: Request,
    seen: RequestSeen,
    mappable: M,
    pressured: P,
    still_held: F,
    too_deep: D,
)
    requires
        observed_by(held, client, request, seen, mappable, pressured, still_held, too_deep),
    ensures
        match request {
            Request::CreatePool { size, fd } => 0 < size <= 512 * 1024 * 1024 ==> {
                &&& call_ensures(mappable, (fd, size as usize), seen.mappable)
                &&& seen.mappable && live(held.pools, client) > 64 ==> call_ensures(
                    pressured,
                    (),
                    seen.pressured,
                )
            },
            Request::AddPlane { .. } => 8 < pending(held.planes, client) < 32 ==> call_ensures(
                pressured,
                (),
                seen.pressured,
            ),
            Request::GetSubsurface { surface, parent } => call_ensures(
                too_deep,
                (surface, parent),
                seen.too_deep,
            ),
            _ => makes_a_buffer(request) && live(held.buffers, client) > 128 ==> call_ensures(
                pressured,
                (),
                seen.pressured,
            ),
        },
{
}

/// An object that is destroyed gives back one of its own kind for its client, if it has any
/// counted, and nothing else: a pool, a buffer (which is then no longer explicit), a capture frame
/// or a timeline. A params object gives back the planes it holds, and an icon is no longer frozen.
pub proof fn a_destroyed_object_gives_back_its_own(
    held: Holdings,
    client: u64,
    object: Destroyed,
    buffer: u64,
    icon: u64,
    other: (u64, u64),
)
    requires
        held.planes.dom().finite(),
    ensures
        ({
            let after = destroyed_step(held, client, object);
            let less = |n: nat|
                if n > 0 {
                    (n - 1) as nat
                } else {
                    0
                };
            &&& object is Pool ==> live(after.pools, client) == less(live(held.pools, client))
            &&& !(object is Pool) ==> after.pools == held.pools
            &&& object is Buffer ==> live(after.buffers, client) == less(
                live(held.buffers, client),
            )
            &&& !(object is Buffer) ==> after.buffers == held.buffers
            &&& object is CaptureFrame ==> live(after.frames, client) == less(
                live(held.frames, client),
            )
            &&& !(object is CaptureFrame) ==> after.frames == held.frames
            &&& object is Timeline ==> live(after.timelines, client) == less(
                live(held.timelines, client),
            )
            &&& !(object is Timeline) ==> after.timelines == held.timelines
            &&& after.explicit.contains(buffer) <==> held.explicit.contains(buffer) && object != (
            Destroyed::Buffer { buffer })
            &&& after.frozen.contains(icon) <==> held.frozen.contains(icon) && object != (
            Destroyed::Icon { icon })
            &&& match object {
                Destroyed::Params { params } => {
                    &&& !after.planes.contains_key((client, params))
                    &&& pending(after.planes, client) + if held.planes.contains_key(
                        (client, params),
                    ) {
                        held.planes[(client, params)] as int
                    } else {
                        0
                    } == pending(held.planes, client)
                    &&& other != (client, params) ==> after.planes.contains_key(other)
                        == held.planes.contains_key(other) && after.planes[other]
                        == held.planes[other]
                },
                _ => after.planes == held.planes,
            }
            &&& after.ledger == held.ledger
        }),
{
    if let Destroyed::Params { params } = object {
        a_release_gives_back_exactly_once(held.planes, client, params);
    }
}

/// The texts of the refusals, with the bounds they name.
pub proof fn the_refusals_name_their_bounds(size: int, fd: int, width: nat, height: nat, cap: nat)
    ensures
        too_large_text(size) == "wl_shm pool size "@ + signed_decimal(size)
            + " exceeds scoot's maximum of "@ + decimal(512 * 1024 * 1024) + " bytes"@,
        unmappable_text(fd) == "Failed to mmap fd "@ + signed_decimal(fd),
        too_many_pools_text()
            == "wl_shm pool refused: this client already holds the maximum of "@ + decimal(128)
            + " live pools"@,
        too_many_pools_under_pressure_text()
            == "wl_shm pool refused: compositor-wide file-descriptor pressure, and this client holds more than the "@
            + decimal(64) + "-pool pressure grace"@,
        too_many_buffers_text() == "wl_buffer refused: this client already holds the maximum of "@
            + decimal(512) + " live buffers"@,
        too_many_buffers_under_pressure_text()
            == "wl_buffer refused: compositor-wide file-descriptor pressure, and this client holds more than the "@
            + decimal(128) + "-buffer pressure grace"@,
        layer_size_text(width, height) == "layer surface size "@ + decimal(width) + "x"@ + decimal(
            height,
        ) + " does not fit in the i32 surface-local coordinates wayland uses (maximum "@ + decimal(
            0x7fff_ffff,
        ) + ")"@,
        frozen_icon_text()
            == "Request made after the icon has been assigned to a toplevel via 'set_icon'"@,
        duplicate_frame_text(cap)
            == "create_frame refused: this client already holds the maximum of "@ + decimal(cap)
            + " live capture frames (duplicate_frame)"@,
{
}

/// A refusal says which bound was met: the size, the mapping, the pressure on the fd table before
/// the number of live objects, or that number.
pub proof fn a_refusal_says_which_bound_was_met(
    held: Holdings,
    max_frames: u32,
    client: u64,
    request: Request,
    seen: RequestSeen,
)
    ensures
        ({
            let answer = request_step(held, max_frames, client, request, seen).1;
            answer matches Answer::Refuse(error) ==> match request {
                Request::CreatePool { size, fd } => {
                    let pressed = live(held.pools, client) > 64 && seen.pressured;
                    &&& size > 512 * 1024 * 1024 ==> error.message == too_large_text(size as int)
                    &&& size <= 512 * 1024 * 1024 && !seen.mappable ==> error.message
                        == unmappable_text(fd as int)
                    &&& size <= 512 * 1024 * 1024 && seen.mappable && pressed ==> error.message
                        == too_many_pools_under_pressure_text()
                    &&& size <= 512 * 1024 * 1024 && seen.mappable && !pressed ==> error.message
                        == too_many_pools_text()
                },
                Request::ResizePool { size } => {
                    &&& size <= 0 ==> error.message == "invalid wl_shm_pool size"@
                    &&& size > 0 ==> error.message == too_large_text(size as int)
                },
                Request::SetLayerSize { width, height } => error.message == layer_size_text(
                    width as nat,
                    height as nat,
                ),
                Request::CreateCaptureFrame => error.message == duplicate_frame_text(
                    max_frames as nat,
                ),
                Request::SetIconName { .. } => error.message == frozen_icon_text(),
                Request::AddIconBuffer { .. } => error.message == frozen_icon_text(),
                _ => makes_a_buffer(request) ==> error.message == if live(held.buffers, client)
                    > 128 && seen.pressured {
                    too_many_buffers_under_pressure_text()
                } else {
                    too_many_buffers_text()
                },
            }
        }),
{
}

/// A destroyed buffer or surface, and nothing else, may leave a cached import to drop, so it queues
/// a drain in a session that has imported and has none queued; a lock surface leaves the lock
/// screen to redraw, a layer surface its layers to neutralise, and nothing leaves more than one of
/// these.
pub proof fn a_destruction_leaves_its_own_aftermath(state: State, object: Destroyed)
    ensures
        ({
            let aftermath = aftermath_of(state, object);
            let idle = !aftermath.queue_drain && !aftermath.redraw_lock
                && !aftermath.neutralize_layers;
            match object {
                Destroyed::Buffer { .. } | Destroyed::Surface => {
                    &&& aftermath.queue_drain <==> state.imports_dmabufs
                        && !state.dmabuf_drain_queued
                    &&& !aftermath.redraw_lock
                    &&& !aftermath.neutralize_layers
                },
                Destroyed::LockSurface => aftermath == (Aftermath {
                    queue_drain: false,
                    redraw_lock: true,
                    neutralize_layers: false,
                }),
                Destroyed::LayerSurface => aftermath == (Aftermath {
                    queue_drain: false,
                    redraw_lock: false,
                    neutralize_layers: true,
                }),
                _ => idle,
            }
        }),
{
}

/// A client is refused another object under pressure exactly past its grace.
pub proof fn pressure_refuses_past_the_grace_only(
    live: u32,
    grace: u32,
    pressured: bool,
    refused: bool,
)
    requires
        call_ensures(pressure_refusal_for, (live, grace, pressured), refused),
    ensures
        live <= grace ==> !refused,
        !pressured ==> !refused,
        live > grace && pressured ==> refused,
{
}

/// A capture frame is refused exactly at its cap, and counted otherwise; no other request counts
/// one or is refused here.
pub proof fn a_capture_frame_is_counted_below_its_cap(
    frames: &mut LiveCounts,
    client: u64,
    request: Request,
    refused: Option<ProtocolError>,
)
    requires
        old(frames).wf(),
        call_ensures(reject_excess_capture_frame, (frames, client, request), refused),
    ensures
        refused is Some <==> request is CreateCaptureFrame && live(old(frames)@, client) >= old(
            frames).cap(),
        refused is Some || !(request is CreateCaptureFrame) ==> final(frames)@ == old(frames)@,
        refused is None && request is CreateCaptureFrame ==> live(final(frames)@, client) == live(
            old(frames)@,
            client,
        ) + 1,
        refused is Some ==> refused->0.interface == Interface::CaptureSession && refused->0.code
            == 1,
{
    assert(live(old(frames)@, client) <= u32::MAX);
}

} // verus!
