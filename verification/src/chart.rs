//! The chart: its tempo timeline, its notes, and the notation they are read from.

pub mod error;
pub mod file;
pub mod notes;
pub mod playback;
pub mod tempo;

pub use error::{
    BpmError, BpmListError, ChartError, DeserializationError, Error, ErrorView,
    SyncedStructListError,
};
pub use file::{deserialize_kv, Chart, ChartView, Metadata, MetadataView, CHART_VERSION};
pub use notes::{
    HitObject, HitObjectType, HitObjectView, SyncedStruct, SyncedStructList, SyncedStructView,
    TimingLine,
};
pub use playback::{ChartInfo, ChartStatus};
pub use tempo::{Beat, Bpm, BpmList, Length, Tempo};
