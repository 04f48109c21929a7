//! Verified core of a scanning-probe microscope viewer: undo history,
//! layer-list editing, channel selection, scan geometry and persistence
//! encodings.

pub mod channel_state;
pub mod course_motion;
pub mod dispatch;
pub mod eng_fmt;
pub mod file_tree;
pub mod frame_codec;
pub mod image_options;
pub mod indexer;
pub mod list_ops;
pub mod list_sync;
pub mod modification;
pub mod ok_trace;
pub mod scale_bar;
pub mod scan_status;
pub mod selectable_list;
pub mod selection;
pub mod single;
pub mod stamp_name;
pub mod tree_view;
pub mod undo_queue;
pub mod view_object;
pub mod worker_loop;
