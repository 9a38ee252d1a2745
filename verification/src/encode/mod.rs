//! Clip export: building ffmpeg invocations and tracking their progress.

pub mod command;
pub mod progress;

pub use command::{
    build_args, display_command, format_timestamp, AudioHandling, Container, CutMode,
    EncodeSettings, ExportRequest, Speed, VideoEncoder,
};
pub use progress::{Progress, ProgressParser};
