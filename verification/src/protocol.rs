//! The requests that the guards read, the objects whose destruction they
//! hear of, and the protocol errors they answer with.

use vstd::prelude::*;
use vstd::string::*;

verus! {

/// The interface of the object a protocol error is posted on.
#[derive(Clone, Copy, Debug, PartialEq, Eq, Structural)]
pub enum Interface {
    Display,
    Shm,
    ShmPool,
    BufferParams,
    SinglePixelManager,
    LayerSurface,
    ToplevelIcon,
    CaptureSession,
    SyncobjManager,
}

impl Interface {
    /// The interface's wire name.
    pub open spec fn wire_name(self) -> Seq<char> {
        match self {
            Interface::Display => "wl_display"@,
            Interface::Shm => "wl_shm"@,
            Interface::ShmPool => "wl_shm_pool"@,
            Interface::BufferParams => "zwp_linux_buffer_params_v1"@,
            Interface::SinglePixelManager => "wp_single_pixel_buffer_manager_v1"@,
            Interface::LayerSurface => "zwlr_layer_surface_v1"@,
            Interface::ToplevelIcon => "xdg_toplevel_icon_v1"@,
            Interface::CaptureSession => "ext_image_copy_capture_session_v1"@,
            Interface::SyncobjManager => "wp_linux_drm_syncobj_manager_v1"@,
        }
    }

    pub fn name(self) -> (name: &'static str)
        ensures
            name@ == self.wire_name(),
    {
        match self {
            Interface::Display => "wl_display",
            Interface::Shm => "wl_shm",
            Interface::ShmPool => "wl_shm_pool",
            Interface::BufferParams => "zwp_linux_buffer_params_v1",
            Interface::SinglePixelManager => "wp_single_pixel_buffer_manager_v1",
            Interface::LayerSurface => "zwlr_layer_surface_v1",
            Interface::ToplevelIcon => "xdg_toplevel_icon_v1",
            Interface::CaptureSession => "ext_image_copy_capture_session_v1",
            Interface::SyncobjManager => "wp_linux_drm_syncobj_manager_v1",
        }
    }
}

/// `wl_shm.error.invalid_stride`, and `wl_shm_pool`'s for a bad buffer.
pub const INVALID_STRIDE: u32 = 1;

/// `wl_shm.error.invalid_fd`.
pub const INVALID_FD: u32 = 2;

/// `zwp_linux_buffer_params_v1.error.invalid_wl_buffer`.
pub const INVALID_WL_BUFFER: u32 = 7;

/// The single-pixel manager defines no errors.
pub const NO_ERROR_DEFINED: u32 = 0;

/// `zwlr_layer_surface_v1.error.invalid_size`.
pub const INVALID_SIZE: u32 = 1;

/// `xdg_toplevel_icon_v1.error.immutable`.
pub const IMMUTABLE: u32 = 2;

/// `ext_image_copy_capture_session_v1.error.duplicate_frame`.
pub const DUPLICATE_FRAME: u32 = 1;

/// `wp_linux_drm_syncobj_manager_v1.error.invalid_timeline`.
pub const INVALID_TIMELINE: u32 = 1;

/// `wl_display.error.no_memory`.
pub const NO_MEMORY: u32 = 2;

/// A protocol error, which disconnects the client it is posted to.
#[derive(Debug, PartialEq, Eq)]
pub struct ProtocolError {
    pub interface: Interface,
    pub code: u32,
    pub message: String,
}

/// What a protocol error says.
#[verifier::ext_equal]
pub struct ErrorText {
    pub interface: Interface,
    pub code: u32,
    pub message: Seq<char>,
}

impl View for ProtocolError {
    type V = ErrorText;

    open spec fn view(&self) -> ErrorText {
        ErrorText { interface: self.interface, code: self.code, message: self.message@ }
    }
}

/// What an answer says: no error, or which.
pub open spec fn said(error: Option<ProtocolError>) -> Option<ErrorText> {
    match error {
        Some(error) => Some(error@),
        None => None,
    }
}

/// A request, as far as the guards read it.
#[derive(Clone, Copy, Debug, PartialEq, Eq, Structural)]
pub enum Request {
    /// `wl_shm.create_pool`.
    CreatePool { size: i32, fd: i32 },
    /// `wl_shm_pool.resize`.
    ResizePool { size: i32 },
    /// `wl_shm_pool.create_buffer`.
    CreateShmBuffer,
    /// `zwp_linux_buffer_params_v1.add`.
    AddPlane { params: u64, fd: i32 },
    /// `zwp_linux_buffer_params_v1.create`.
    CreateDmabuf { params: u64 },
    /// `zwp_linux_buffer_params_v1.create_immed`.
    CreateDmabufImmed { params: u64 },
    /// `wp_single_pixel_buffer_manager_v1.create_u32_rgba_buffer`.
    CreateSinglePixelBuffer,
    /// `zwlr_layer_surface_v1.set_size`.
    SetLayerSize { width: u32, height: u32 },
    /// `xdg_toplevel_icon_v1.set_name`.
    SetIconName { icon: u64 },
    /// `xdg_toplevel_icon_v1.add_buffer`.
    AddIconBuffer { icon: u64 },
    /// `xdg_toplevel_icon_manager_v1.set_icon`.
    SetIcon { assigned: Option<u64> },
    /// `ext_image_copy_capture_session_v1.create_frame`.
    CreateCaptureFrame,
    /// `wl_subcompositor.get_subsurface`.
    GetSubsurface { surface: u64, parent: u64 },
    /// `wl_surface.commit`.
    CommitSurface { surface: u64 },
    /// `wp_linux_drm_syncobj_manager_v1.import_timeline`.
    ImportTimeline { fd: i32 },
    /// Any request that no guard reads.
    Other,
}

/// A protocol object that was destroyed, as far as the hooks read it.
#[derive(Clone, Copy, Debug, PartialEq, Eq, Structural)]
pub enum Destroyed {
    /// A `wl_shm_pool`.
    Pool,
    /// A `wl_buffer`.
    Buffer { buffer: u64 },
    /// A `zwp_linux_buffer_params_v1`.
    Params { params: u64 },
    /// A `wl_surface`.
    Surface,
    /// An `ext_session_lock_surface_v1`.
    LockSurface,
    /// A `zwlr_layer_surface_v1`.
    LayerSurface,
    /// An `xdg_toplevel_icon_v1`.
    Icon { icon: u64 },
    /// An `ext_image_copy_capture_frame_v1`.
    CaptureFrame,
    /// A `wp_linux_drm_syncobj_timeline_v1`.
    Timeline,
    /// Any object that no hook reads.
    Other,
}

} // verus!
