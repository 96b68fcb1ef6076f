//! What the player is told by its pipelines and what it has the program do.
use crate::double::Double;
use vstd::prelude::*;

verus! {

/// What the player is doing, as its listeners see it.
#[derive(Clone, Copy, Debug, PartialEq, Eq, Structural)]
pub enum BackendPlaybackState {
    Stopped,
    Loading,
    Paused,
    Playing,
}

impl Default for BackendPlaybackState {
    fn default() -> (r: Self)
        ensures
            r == BackendPlaybackState::Stopped,
    {
        BackendPlaybackState::Stopped
    }
}

/// One of the two pipelines. Outside of a crossfade only the active one plays.
#[derive(Clone, Copy, Debug, PartialEq, Eq, Structural)]
pub enum Pipeline {
    Primary,
    Secondary,
}

impl Pipeline {
    /// The pipeline that this one is not.
    #[verifier::allow_in_spec]
    pub fn other(self) -> Pipeline
        returns
            (match self {
                Pipeline::Primary => Pipeline::Secondary,
                Pipeline::Secondary => Pipeline::Primary,
            }),
    {
        match self {
            Pipeline::Primary => Pipeline::Secondary,
            Pipeline::Secondary => Pipeline::Primary,
        }
    }
}

/// The state of a pipeline, as GStreamer counts them.
#[derive(Clone, Copy, Debug, PartialEq, Eq, Structural)]
pub enum PipelineState {
    VoidPending,
    Null,
    Ready,
    Paused,
    Playing,
}

/// What the player tells its listeners.
#[derive(Clone, Copy, Debug, PartialEq, Eq, Structural)]
pub enum PlaybackAction {
    /// The player is in a new state.
    PlaybackState(BackendPlaybackState),
    /// The clock stands at this second.
    Tick(u64),
    /// The track has ended.
    EOS,
    /// A pipeline has failed.
    Error,
}

/// What the program has to do next.
#[derive(Clone, Copy, Debug, PartialEq, Eq, Structural)]
pub enum Action {
    /// Bring the player into a state: run `set_pipeline_gst_state` for it, then hand the
    /// result to `set_state`.
    SetState(BackendPlaybackState),
    /// Ask a pipeline for a state; what it answers does not matter.
    ChangeState { pipeline: Pipeline, target: PipelineState },
    /// Set the linear volume of a pipeline.
    SetVolume { pipeline: Pipeline, volume: Double },
    /// Read the linear volume of the active pipeline and hand it to `check_volume`.
    CheckVolume,
    /// Tell the listeners.
    Send(PlaybackAction),
    /// Query the duration of the active pipeline every `interval_ms` milliseconds and hand
    /// each reply to `query_duration`, until that returns false.
    PollDuration { interval_ms: u64 },
    /// Let go of the periodic wake-up of the clock before.
    StopClock,
    /// Hand the time of the new clock to `clock_tick` every `interval` nanoseconds, from
    /// `start` on.
    StartClock { start: u64, interval: u64 },
}

/// Actions in the order in which they are to be taken, and whether the source that was
/// asked for them stays installed.
pub struct Reaction {
    pub actions: Vec<Action>,
    pub keep: bool,
}

/// What a bus message came from.
#[derive(Clone, Copy, Debug, PartialEq, Eq, Structural)]
pub enum MessageSource {
    /// One of the two pipelines itself.
    Pipeline(Pipeline),
    /// An element inside a pipeline, or nothing.
    Element,
}

/// A message on the bus of a pipeline.
#[derive(Clone, Copy, Debug, PartialEq, Eq, Structural)]
pub enum BusMessage {
    Error,
    Eos,
    StateChanged { source: MessageSource, current: PipelineState },
    /// The pipeline has a new clock, which stands at a time in nanoseconds, or none.
    NewClock(Option<u64>),
    StreamStart,
    Other,
}

/// The answer to a position or duration query.
#[derive(Clone, Copy, Debug, PartialEq, Eq, Structural)]
pub enum QueryReply {
    /// No element of the pipeline could answer.
    Unanswered,
    /// The answer is not a time.
    OtherFormat,
    /// A time in nanoseconds, or a time that is not known.
    Time(Option<u64>),
}

} // verus!
