//! The host side of a GPU mirror: which rows live where on the device, what
//! has changed, and the commands that bring the device up to date.
//!
//! Nothing here talks to a device. Every operation that would appends its
//! commands to a [`CommandQueue`](device::CommandQueue), and contracts say
//! what device memory holds once they are executed.

pub mod device;
pub mod dirty;
pub mod dynamic_buffer;
pub mod upload;
pub mod growable_scene_buffer;
pub mod dirty_tracked_scene_buffer;
pub mod once_scene_buffer;
pub mod buffer_laws;
pub mod row_flags;
pub mod component_presence;
pub mod generation_mirror;
pub mod component_rows;
pub mod column;
pub mod partner;
pub mod region;
pub mod cell_state;
pub mod cell_store;
pub mod cell_laws;
pub mod frame_laws;
pub mod count_laws;
pub mod world_column;
pub mod row_laws;
pub mod store_laws;
pub mod scene_store;
pub mod world_mirror;
pub mod mirrored_world;
pub mod mirror_laws;
pub mod registration_laws;
pub mod mirror_agreement;
