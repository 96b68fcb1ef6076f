//! The player: its state, and its answers to requests and to messages of its pipelines.
use crate::action::{
    Action, BackendPlaybackState, BusMessage, MessageSource, Pipeline, PipelineState, PlaybackAction,
    QueryReply, Reaction,
};
use crate::double::{Double, ONE_BITS};
use crate::transition::{state_requests, Progress, StateChange, StateChangeError};
use crate::uri::{file_uri, file_uri_of};
use vstd::prelude::*;

verus! {

/// 3.0, the crossfade duration in seconds of a new player.
pub const DEFAULT_CROSSFADE_BITS: u64 = 0x4008_0000_0000_0000;

/// 12.0, the longest crossfade duration in seconds.
pub const LONGEST_CROSSFADE_BITS: u64 = 0x4028_0000_0000_0000;

/// 0.05, the loudest volume that is taken for silence.
pub const SILENCE_BITS: u64 = 0x3FA9_9999_9999_999A;

/// The nanoseconds of a second.
pub const SECOND: u64 = 1_000_000_000;

/// The last second whose time in nanoseconds is a `u64`.
pub const LAST_SECOND: u64 = 18_446_744_073;

/// The interval, in milliseconds, at which the duration of a new stream is queried.
pub const DURATION_POLL_MS: u64 = 1;

/// The state of the player.
#[derive(Clone, Copy, Debug, PartialEq, Eq, Structural)]
pub struct GstPlayer {
    /// The pipeline that plays the current track.
    pub active_pipeline: Pipeline,
    /// What the listeners have been told.
    pub state: BackendPlaybackState,
    /// The duration of the current track in whole seconds, if it is known.
    pub duration: Option<u64>,
    /// The linear volume that both pipelines are meant to have.
    pub volume: Double,
    /// The duration of a crossfade in seconds.
    pub crossfade_duration: Double,
    /// Whether a crossfade is under way.
    pub is_crossfading: bool,
}

/// A pipeline and the URI that it is to play.
pub struct UriChange {
    pub pipeline: Pipeline,
    pub uri: String,
}

/// A pipeline and the position in nanoseconds that it is to seek.
#[derive(Clone, Copy, Debug, PartialEq, Eq, Structural)]
pub struct SeekRequest {
    pub pipeline: Pipeline,
    pub position: u64,
    /// Whether what the pipeline has buffered is dropped.
    pub flush: bool,
    /// Whether to seek the nearest key unit.
    pub key_unit: bool,
}

/// The player's state that a pipeline's state stands for.
pub open spec fn backend_state(current: PipelineState) -> Option<BackendPlaybackState> {
    match current {
        PipelineState::VoidPending => None,
        PipelineState::Null => Some(BackendPlaybackState::Stopped),
        PipelineState::Ready => Some(BackendPlaybackState::Loading),
        PipelineState::Paused => Some(BackendPlaybackState::Paused),
        PipelineState::Playing => Some(BackendPlaybackState::Playing),
    }
}

/// The time in nanoseconds that a query gave, if it gave one.
pub open spec fn reply_time(reply: QueryReply) -> Option<u64> {
    match reply {
        QueryReply::Time(time) => time,
        _ => None,
    }
}

/// The whole seconds of the time that a query gave, if it gave one.
pub open spec fn reply_seconds(reply: QueryReply) -> Option<u64> {
    match reply_time(reply) {
        Some(time) => Some(time / SECOND),
        None => None,
    }
}

/// The cubic volume to play at when the user asks for `volume`: between zero and one, and
/// silent near zero.
pub open spec fn audible(volume: Double) -> Double {
    let held = volume.clamped(Double::of_bits(0), Double::of_bits(ONE_BITS));
    if held.le(Double::of_bits(SILENCE_BITS)) {
        Double::of_bits(0)
    } else {
        held
    }
}

/// What the listeners are told when the clock stands at a time in nanoseconds.
pub open spec fn clock_news(time: Option<u64>) -> Option<PlaybackAction> {
    match time {
        Some(t) => Some(PlaybackAction::Tick(t / SECOND)),
        None => None,
    }
}

/// Setting both pipelines to one volume.
pub open spec fn both_volumes(volume: Double) -> Seq<Action> {
    seq![
        Action::SetVolume { pipeline: Pipeline::Primary, volume },
        Action::SetVolume { pipeline: Pipeline::Secondary, volume },
    ]
}

/// Setting one pipeline to a volume, held between zero and one.
pub open spec fn held_volume(pipeline: Pipeline, volume: Double) -> Action {
    Action::SetVolume {
        pipeline,
        volume: volume.clamped(Double::of_bits(0), Double::of_bits(ONE_BITS)),
    }
}

impl GstPlayer {
    /// The crossfade duration is within its bounds, unless it is not a number.
    pub open spec fn well_formed(self) -> bool {
        self.crossfade_duration.nan() || (Double::of_bits(0).le(self.crossfade_duration)
            && self.crossfade_duration.le(Double::of_bits(LONGEST_CROSSFADE_BITS)))
    }

    /// What follows the result of bringing the pipelines into the states for `state`. A
    /// stopped pipeline sends no message, so the player itself takes note of that state.
    pub open spec fn with_state(self, state: BackendPlaybackState, result: Result<(), StateChangeError>) -> (
        GstPlayer,
        Seq<Action>,
    ) {
        if result is Ok && state == BackendPlaybackState::Stopped {
            (
                GstPlayer { state, ..self },
                seq![Action::Send(PlaybackAction::PlaybackState(state))],
            )
        } else {
            (self, Seq::empty())
        }
    }

    /// What follows the news that `source` is now in the state `current`: the player takes
    /// the state of its active pipeline, tells its listeners if that is new, and has the
    /// volume checked when playback starts. Other sources change nothing.
    pub open spec fn with_pipeline_state(self, source: MessageSource, current: PipelineState) -> (
        GstPlayer,
        Seq<Action>,
    ) {
        match backend_state(current) {
            Some(state) if source == MessageSource::Pipeline(self.active_pipeline) => (
                GstPlayer { state, ..self },
                (if state == self.state {
                    Seq::empty()
                } else {
                    seq![Action::Send(PlaybackAction::PlaybackState(state))]
                }) + (if state == BackendPlaybackState::Playing {
                    seq![Action::CheckVolume]
                } else {
                    Seq::empty()
                }),
            ),
            _ => (self, Seq::empty()),
        }
    }

    /// What follows a message on the bus of `pipeline`. The end of a stream counts only on
    /// the active pipeline, and only while no crossfade is under way.
    pub open spec fn with_message(self, message: BusMessage, pipeline: Pipeline) -> (
        GstPlayer,
        Seq<Action>,
    ) {
        match message {
            BusMessage::Error => (
                self,
                seq![
                    Action::SetState(BackendPlaybackState::Stopped),
                    Action::Send(PlaybackAction::Error),
                ],
            ),
            BusMessage::Eos => (
                self,
                if pipeline == self.active_pipeline && !self.is_crossfading {
                    seq![
                        Action::SetState(BackendPlaybackState::Stopped),
                        Action::Send(PlaybackAction::EOS),
                    ]
                } else {
                    Seq::empty()
                },
            ),
            BusMessage::StateChanged { source, current } => self.with_pipeline_state(
                source,
                current,
            ),
            BusMessage::NewClock(time) => (
                self,
                match time {
                    Some(start) => seq![
                        Action::StopClock,
                        Action::StartClock { start, interval: SECOND },
                    ],
                    None => seq![Action::StopClock],
                },
            ),
            BusMessage::StreamStart => (
                self,
                seq![Action::PollDuration { interval_ms: DURATION_POLL_MS }],
            ),
            BusMessage::Other => (self, Seq::empty()),
        }
    }

    /// Whether `change` has the active pipeline play the file at `path`.
    pub open spec fn plays_file(self, change: UriChange, path: Seq<char>) -> bool {
        change.pipeline == self.active_pipeline && change.uri@ == file_uri_of(path)
    }

    /// Whether `change` has the other pipeline play the file at `path`.
    pub open spec fn plays_file_next(self, change: UriChange, path: Seq<char>) -> bool {
        change.pipeline == self.active_pipeline.other() && change.uri@ == file_uri_of(path)
    }

    /// With another duration of a crossfade.
    pub open spec fn with_crossfade_duration(self, duration: Double) -> GstPlayer {
        GstPlayer {
            crossfade_duration: duration.clamped(
                Double::of_bits(0),
                Double::of_bits(LONGEST_CROSSFADE_BITS),
            ),
            ..self
        }
    }

    /// With another linear volume, which both pipelines get.
    pub open spec fn with_linear_volume(self, linear: Double) -> (GstPlayer, Seq<Action>) {
        (GstPlayer { volume: linear, ..self }, both_volumes(linear))
    }

    /// What follows the news that the active pipeline has the linear volume `reported`.
    pub open spec fn volume_repair(self, reported: Double) -> Seq<Action> {
        if reported.le(self.volume) && self.volume.le(reported) {
            Seq::empty()
        } else {
            both_volumes(self.volume)
        }
    }

    /// After the reply to a duration query.
    pub open spec fn with_reply(self, reply: QueryReply) -> GstPlayer {
        GstPlayer { duration: reply_seconds(reply), ..self }
    }

    /// What brings the active pipeline to a second.
    pub open spec fn seek_request(self, seconds: u64) -> SeekRequest {
        SeekRequest {
            pipeline: self.active_pipeline,
            position: (seconds * SECOND) as u64,
            flush: true,
            key_unit: true,
        }
    }

    /// A stopped player on its primary pipeline, with no track, silent.
    pub fn new() -> (r: GstPlayer)
        ensures
            r == (GstPlayer {
                active_pipeline: Pipeline::Primary,
                state: BackendPlaybackState::Stopped,
                duration: None,
                volume: Double::of_bits(0),
                crossfade_duration: Double::of_bits(DEFAULT_CROSSFADE_BITS),
                is_crossfading: false,
            }),
            r.well_formed(),
    {
        GstPlayer {
            active_pipeline: Pipeline::Primary,
            state: BackendPlaybackState::default(),
            duration: None,
            volume: Double::of_bits(0),
            crossfade_duration: Double::of_bits(DEFAULT_CROSSFADE_BITS),
            is_crossfading: false,
        }
    }

    /// The active pipeline.
    pub fn pipeline(&self) -> (r: Pipeline)
        ensures
            r == self.active_pipeline,
    {
        self.active_pipeline
    }

    /// The pipeline that is not active.
    pub fn other_pipeline(&self) -> (r: Pipeline)
        ensures
            r == self.active_pipeline.other(),
            r != self.active_pipeline,
    {
        self.active_pipeline.other()
    }

    /// The change that brings the pipelines into the states for `state`.
    pub fn set_pipeline_gst_state(&self, state: BackendPlaybackState) -> (r: StateChange)
        ensures
            r@ == Progress::start(state_requests(self.active_pipeline, state)),
    {
        StateChange::new(self.active_pipeline, state)
    }

    /// Takes the result of `set_pipeline_gst_state` for `state`.
    pub fn set_state(&mut self, state: BackendPlaybackState, result: Result<(), StateChangeError>) -> (actions:
        Vec<Action>)
        ensures
            (*final(self), actions@) == old(self).with_state(state, result),
    {
        if result.is_ok() && state == BackendPlaybackState::Stopped {
            self.state = state;
            vec![Action::Send(PlaybackAction::PlaybackState(state))]
        } else {
            Vec::new()
        }
    }

    /// What the listeners have been told.
    pub fn state(&self) -> (r: BackendPlaybackState)
        ensures
            r == self.state,
    {
        self.state
    }

    /// Has the active pipeline play the file at a path.
    pub fn set_uri(&self, uri: String) -> (r: UriChange)
        ensures
            r.pipeline == self.active_pipeline,
            r.uri@ == file_uri_of(uri@),
            self.plays_file(r, uri@),
    {
        UriChange { pipeline: self.active_pipeline, uri: file_uri(uri.as_str()) }
    }

    /// Has the other pipeline play the file at a path.
    pub fn set_uri_next(&self, uri: String) -> (r: UriChange)
        ensures
            r.pipeline == self.active_pipeline.other(),
            r.uri@ == file_uri_of(uri@),
            self.plays_file_next(r, uri@),
    {
        UriChange { pipeline: self.other_pipeline(), uri: file_uri(uri.as_str()) }
    }

    /// Sets the duration of a crossfade in seconds, held between zero and twelve.
    pub fn set_crossfade_duration(&mut self, duration: Double)
        ensures
            *final(self) == (GstPlayer {
                crossfade_duration: duration.clamped(
                    Double::of_bits(0),
                    Double::of_bits(LONGEST_CROSSFADE_BITS),
                ),
                ..*old(self)
            }),
            *final(self) == old(self).with_crossfade_duration(duration),
            final(self).well_formed(),
    {
        self.crossfade_duration = duration.clamp(
            Double::of_bits(0),
            Double::of_bits(LONGEST_CROSSFADE_BITS),
        );
    }

    /// The duration of a crossfade in seconds.
    pub fn crossfade_duration(&self) -> (r: Double)
        ensures
            r == self.crossfade_duration,
    {
        self.crossfade_duration
    }

    /// The cubic volume to play at when the user asks for `volume`. The program converts it
    /// to a linear volume and hands that to `set_linear_volume`.
    pub fn set_volume(&self, volume: Double) -> (cubic: Double)
        ensures
            cubic == audible(volume),
    {
        let held: Double = volume.clamp(Double::of_bits(0), Double::of_bits(ONE_BITS));
        if held.at_most(Double::of_bits(SILENCE_BITS)) {
            Double::of_bits(0)
        } else {
            held
        }
    }

    /// Sets the linear volume of both pipelines.
    pub fn set_linear_volume(&mut self, linear: Double) -> (actions: Vec<Action>)
        ensures
            *final(self) == (GstPlayer { volume: linear, ..*old(self) }),
            actions@ == both_volumes(linear),
            (*final(self), actions@) == old(self).with_linear_volume(linear),
    {
        self.volume = linear;
        self.set_volume_internal()
    }

    /// Sets both pipelines to the player's volume.
    pub fn set_volume_internal(&self) -> (actions: Vec<Action>)
        ensures
            actions@ == both_volumes(self.volume),
    {
        let actions: Vec<Action> = vec![
            Action::SetVolume { pipeline: Pipeline::Primary, volume: self.volume },
            Action::SetVolume { pipeline: Pipeline::Secondary, volume: self.volume },
        ];
        assert(actions@ =~= both_volumes(self.volume));
        actions
    }

    /// Sets one pipeline to a volume, held between zero and one.
    pub fn set_volume_for_pipeline(pipeline: Pipeline, volume: Double) -> (action: Action)
        ensures
            action == held_volume(pipeline, volume),
    {
        Action::SetVolume {
            pipeline,
            volume: volume.clamp(Double::of_bits(0), Double::of_bits(ONE_BITS)),
        }
    }

    /// Takes the linear volume that the active pipeline has. A pipeline may lose its volume
    /// when it starts to play; then both are set again.
    pub fn check_volume(&self, reported: Double) -> (actions: Vec<Action>)
        ensures
            actions@ == (if reported.le(self.volume) && self.volume.le(reported) {
                Seq::empty()
            } else {
                both_volumes(self.volume)
            }),
            actions@ == self.volume_repair(reported),
    {
        if reported.same_number(self.volume) {
            Vec::new()
        } else {
            self.set_volume_internal()
        }
    }

    /// The position in nanoseconds that the active pipeline gave.
    pub fn pipeline_position_in_nsecs(reply: QueryReply) -> (r: Option<u64>)
        ensures
            r == reply_time(reply),
    {
        match reply {
            QueryReply::Time(time) => time,
            _ => None,
        }
    }

    /// The position in whole seconds that the active pipeline gave.
    pub fn pipeline_position(reply: QueryReply) -> (r: Option<u64>)
        ensures
            r == reply_seconds(reply),
    {
        match reply {
            QueryReply::Time(Some(time)) => Some(time / SECOND),
            _ => None,
        }
    }

    /// The duration in whole seconds that the active pipeline gave.
    pub fn pipeline_duration(reply: QueryReply) -> (r: Option<u64>)
        ensures
            r == reply_seconds(reply),
    {
        match reply {
            QueryReply::Time(Some(time)) => Some(time / SECOND),
            _ => None,
        }
    }

    /// Takes the reply to a duration query, and returns whether to query again.
    pub fn query_duration(&mut self, reply: QueryReply) -> (again: bool)
        ensures
            *final(self) == (GstPlayer { duration: reply_seconds(reply), ..*old(self) }),
            *final(self) == old(self).with_reply(reply),
            again <==> reply_seconds(reply) is None,
            again <==> final(self).duration is None,
    {
        self.duration = GstPlayer::pipeline_duration(reply);
        self.duration.is_none()
    }

    /// The duration of the current track in whole seconds, if it is known.
    pub fn duration(&self) -> (r: Option<u64>)
        ensures
            r == self.duration,
    {
        self.duration
    }

    /// Takes a message on the bus of `pipeline`; the bus stays watched.
    pub fn handle_bus_message(&mut self, message: BusMessage, pipeline: Pipeline) -> (r: Reaction)
        ensures
            (*final(self), r.actions@) == old(self).with_message(message, pipeline),
            r.keep,
    {
        let actions: Vec<Action> = match message {
            BusMessage::Error => self.on_bus_error(),
            BusMessage::Eos => {
                if pipeline == self.active_pipeline {
                    self.on_bus_eos()
                } else {
                    Vec::new()
                }
            },
            BusMessage::StateChanged { source, current } => self.on_gst_state_changed(
                source,
                current,
            ),
            BusMessage::NewClock(time) => GstPlayer::on_new_clock(time),
            BusMessage::StreamStart => GstPlayer::on_stream_start(),
            BusMessage::Other => Vec::new(),
        };
        Reaction { actions, keep: true }
    }

    /// Has the duration of a new stream queried until it is known.
    pub fn on_stream_start() -> (actions: Vec<Action>)
        ensures
            actions@ == seq![Action::PollDuration { interval_ms: DURATION_POLL_MS }],
    {
        vec![Action::PollDuration { interval_ms: DURATION_POLL_MS }]
    }

    /// Lets go of the clock, and has the new one, if there is one, wake the player every
    /// second from its present time on.
    pub fn on_new_clock(time: Option<u64>) -> (actions: Vec<Action>)
        ensures
            actions@ == (match time {
                Some(start) => seq![
                    Action::StopClock,
                    Action::StartClock { start, interval: SECOND },
                ],
                None => seq![Action::StopClock],
            }),
    {
        match time {
            Some(start) => vec![
                Action::StopClock,
                Action::StartClock { start, interval: SECOND },
            ],
            None => vec![Action::StopClock],
        }
    }

    /// Tells the listeners the second at which the clock stands, if its time is known.
    pub fn clock_tick(time: Option<u64>) -> (r: Option<PlaybackAction>)
        ensures
            r == (match time {
                Some(t) => Some(PlaybackAction::Tick(t / SECOND)),
                None => None,
            }),
            r == clock_news(time),
    {
        match time {
            Some(t) => Some(PlaybackAction::Tick(t / SECOND)),
            None => None,
        }
    }

    /// Stops the player and tells its listeners that a pipeline has failed.
    pub fn on_bus_error(&self) -> (actions: Vec<Action>)
        ensures
            actions@ == seq![
                Action::SetState(BackendPlaybackState::Stopped),
                Action::Send(PlaybackAction::Error),
            ],
    {
        vec![
            Action::SetState(BackendPlaybackState::Stopped),
            Action::Send(PlaybackAction::Error),
        ]
    }

    /// Stops the player and tells its listeners that the track has ended; during a crossfade
    /// the next track plays already, and nothing happens.
    pub fn on_bus_eos(&self) -> (actions: Vec<Action>)
        ensures
            actions@ == (if self.is_crossfading {
                Seq::empty()
            } else {
                seq![
                    Action::SetState(BackendPlaybackState::Stopped),
                    Action::Send(PlaybackAction::EOS),
                ]
            }),
    {
        if self.is_crossfading {
            return Vec::new();
        }
        vec![
            Action::SetState(BackendPlaybackState::Stopped),
            Action::Send(PlaybackAction::EOS),
        ]
    }

    /// Takes the news that `source` is now in the state `current`.
    pub fn on_gst_state_changed(&mut self, source: MessageSource, current: PipelineState) -> (actions:
        Vec<Action>)
        ensures
            (*final(self), actions@) == old(self).with_pipeline_state(source, current),
    {
        let mut actions: Vec<Action> = Vec::new();
        if source != MessageSource::Pipeline(self.active_pipeline) {
            return actions;
        }
        let state: BackendPlaybackState = match current {
            PipelineState::Null => BackendPlaybackState::Stopped,
            PipelineState::Ready => BackendPlaybackState::Loading,
            PipelineState::Paused => BackendPlaybackState::Paused,
            PipelineState::Playing => BackendPlaybackState::Playing,
            PipelineState::VoidPending => return actions,
        };
        if self.state != state {
            self.state = state;
            actions.push(Action::Send(PlaybackAction::PlaybackState(state)));
        }
        if state == BackendPlaybackState::Playing {
            actions.push(Action::CheckVolume);
        }
        assert(actions@ =~= old(self).with_pipeline_state(source, current).1);
        actions
    }

    /// Has the active pipeline seek a second.
    pub fn seek(&self, seconds: u64) -> (r: SeekRequest)
        requires
            seconds <= LAST_SECOND,
        ensures
            r.pipeline == self.active_pipeline,
            r.position == seconds * SECOND,
            r.flush,
            r.key_unit,
            r == self.seek_request(seconds),
    {
        SeekRequest {
            pipeline: self.active_pipeline,
            position: seconds * SECOND,
            flush: true,
            key_unit: true,
        }
    }
}

} // verus!
