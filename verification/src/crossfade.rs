//! Fading from the track on the active pipeline to the next one on the other.
use crate::action::{
    Action, BackendPlaybackState, Pipeline, PipelineState, PlaybackAction, QueryReply, Reaction,
};
use crate::double::{law_order_le, law_order_lt, lemma_grid_order, one, Double, ONE_BITS};
use crate::player::{held_volume, reply_seconds, GstPlayer, UriChange};
use crate::rounding::{lemma_one, lemma_whole_exact};
use crate::transition::StateRequest;
use crate::uri::file_uri_of;
use vstd::prelude::*;

verus! {

/// The smallest step at one, 2^-52 seconds: no shorter crossfade takes any time.
pub const EPSILON_BITS: u64 = 0x3CB0_0000_0000_0000;

/// 10.0, the shortest interval in milliseconds between two steps.
pub const SHORTEST_INTERVAL_BITS: u64 = 0x4024_0000_0000_0000;

/// 20.0, the steps of a second and the fewest steps of a crossfade.
pub const FEWEST_STEPS_BITS: u64 = 0x4034_0000_0000_0000;

/// 200.0, the most steps of a crossfade.
pub const MOST_STEPS_BITS: u64 = 0x4069_0000_0000_0000;

/// 1000.0, the milliseconds of a second.
pub const THOUSAND_BITS: u64 = 0x408F_4000_0000_0000;

/// 2^53, the number from which on adding one to a double no longer changes it.
pub const LAST_STEP: u64 = 0x20_0000_0000_0000;

/// A step of starting a crossfade.
pub enum CrossfadeStep {
    /// Have a pipeline play a URI.
    SetUri(UriChange),
    /// Take an action.
    Perform(Action),
    /// Ask a pipeline for a state, and hand its answer to `crossfade_started`.
    Request(StateRequest),
}

/// The actions that a crossfade begins with, and the fade that it goes on with, if any.
pub struct Crossfade {
    pub actions: Vec<Action>,
    pub fade: Option<Fade>,
}

/// A fade under way. The program hands it to `fade_tick` every `interval_ms`
/// milliseconds, until the `keep` of its reaction is false.
#[derive(Clone, Copy, Debug, PartialEq, Eq, Structural)]
pub struct Fade {
    /// The pipeline that falls silent.
    pub outgoing: Pipeline,
    /// The pipeline that rises to the target volume.
    pub incoming: Pipeline,
    /// The linear volume of the player when the fade began.
    pub target: Double,
    /// The steps of the whole fade, which need not be a whole number.
    pub steps: Double,
    /// The steps taken.
    pub step: u64,
    pub interval_ms: u64,
}

/// Whether `steps` start a crossfade to the file at `path`: the incoming pipeline gets the
/// URI, then falls silent, and only then is asked to play.
pub open spec fn starts_crossfade(
    steps: Seq<CrossfadeStep>,
    incoming: Pipeline,
    path: Seq<char>,
) -> bool {
    &&& steps.len() == 3
    &&& steps[0] matches CrossfadeStep::SetUri(change) && change.pipeline == incoming
        && change.uri@ == file_uri_of(path)
    &&& steps[1] == CrossfadeStep::Perform(
        Action::SetVolume { pipeline: incoming, volume: Double::of_bits(0) },
    )
    &&& steps[2] == CrossfadeStep::Request(
        StateRequest { pipeline: incoming, target: PipelineState::Playing, required: true },
    )
}

/// The steps of a crossfade of `duration` seconds: twenty a second, but no fewer than 20
/// and no more than 200.
pub open spec fn fade_steps(duration: Double) -> Double {
    duration.times(Double::of_bits(FEWEST_STEPS_BITS)).clamped(
        Double::of_bits(FEWEST_STEPS_BITS),
        Double::of_bits(MOST_STEPS_BITS),
    )
}

/// The milliseconds between two steps of a crossfade of `duration` seconds: the duration
/// spread over the steps, but no less than 10.
pub open spec fn fade_interval(duration: Double) -> int {
    let spread = duration.times(Double::of_bits(THOUSAND_BITS)).over(fade_steps(duration));
    if Double::of_bits(SHORTEST_INTERVAL_BITS).lt(spread) {
        spread.truncated()
    } else {
        Double::of_bits(SHORTEST_INTERVAL_BITS).truncated()
    }
}

/// The end of a fade: the incoming pipeline is at the target volume, the outgoing one is
/// silent and shut down.
pub open spec fn fade_end(outgoing: Pipeline, incoming: Pipeline, target: Double) -> Seq<Action> {
    seq![
        held_volume(incoming, target),
        held_volume(outgoing, Double::of_bits(0)),
        Action::ChangeState { pipeline: outgoing, target: PipelineState::Null },
    ]
}

impl Fade {
    /// The fade of a player whose crossfade duration is a number.
    pub open spec fn well_formed(self) -> bool {
        &&& self.outgoing != self.incoming
        &&& Double::of_bits(FEWEST_STEPS_BITS).le(self.steps)
        &&& self.steps.le(Double::of_bits(MOST_STEPS_BITS))
        &&& self.step <= LAST_STEP
    }

    /// One step further.
    pub open spec fn stepped(self) -> Fade {
        Fade {
            step: if self.step < LAST_STEP {
                (self.step + 1) as u64
            } else {
                self.step
            },
            ..self
        }
    }

    /// The part of the fade that has passed, between zero and one.
    pub open spec fn progress(self) -> Double {
        Double::whole(self.step as int).over(self.steps).clamped(
            Double::of_bits(0),
            Double::of_bits(ONE_BITS),
        )
    }

    /// Whether all of the fade has passed.
    pub open spec fn complete(self) -> bool {
        Double::of_bits(ONE_BITS).le(self.progress())
    }

    /// The volume of the outgoing pipeline.
    pub open spec fn outgoing_volume(self) -> Double {
        self.target.times(self.progress().complement()).clamped(
            Double::of_bits(0),
            Double::of_bits(ONE_BITS),
        )
    }

    /// The volume of the incoming pipeline.
    pub open spec fn incoming_volume(self) -> Double {
        self.target.times(self.progress()).clamped(Double::of_bits(0), Double::of_bits(ONE_BITS))
    }

    /// The actions that this point of the fade calls for.
    pub open spec fn actions(self) -> Seq<Action> {
        if self.complete() {
            fade_end(self.outgoing, self.incoming, self.target)
        } else {
            seq![
                Action::SetVolume { pipeline: self.outgoing, volume: self.outgoing_volume() },
                Action::SetVolume { pipeline: self.incoming, volume: self.incoming_volume() },
            ]
        }
    }
}

impl GstPlayer {
    /// What begins a fade: nothing but the fade itself, or, for a crossfade that takes no
    /// time, its end.
    pub open spec fn with_fade(self, outgoing: Pipeline, incoming: Pipeline) -> (
        GstPlayer,
        Seq<Action>,
        Option<Fade>,
    ) {
        if self.crossfade_duration.le(Double::of_bits(EPSILON_BITS)) {
            (
                GstPlayer { is_crossfading: false, ..self },
                fade_end(outgoing, incoming, self.volume),
                None,
            )
        } else {
            (
                self,
                Seq::empty(),
                Some(
                    Fade {
                        outgoing,
                        incoming,
                        target: self.volume,
                        steps: fade_steps(self.crossfade_duration),
                        step: 0,
                        interval_ms: fade_interval(self.crossfade_duration) as u64,
                    },
                ),
            )
        }
    }

    /// What follows the answer of the other pipeline to the request to play. If it plays, it
    /// becomes the active one at once, and the listeners are told that the player plays.
    pub open spec fn with_crossfade(self, started: bool) -> (GstPlayer, Seq<Action>, Option<Fade>) {
        if started {
            let (player, actions, fade) = (GstPlayer {
                active_pipeline: self.active_pipeline.other(),
                state: BackendPlaybackState::Playing,
                ..self
            }).with_fade(self.active_pipeline, self.active_pipeline.other());
            let told = Action::Send(PlaybackAction::PlaybackState(BackendPlaybackState::Playing));
            (player, seq![told] + actions, fade)
        } else {
            (GstPlayer { is_crossfading: false, ..self }, Seq::empty(), None)
        }
    }

    /// What follows the next step of a fade.
    pub open spec fn with_tick(self, fade: Fade) -> GstPlayer {
        GstPlayer { is_crossfading: self.is_crossfading && !fade.stepped().complete(), ..self }
    }

    /// Whether it is time for a crossfade, given the duration and the position of the active
    /// pipeline.
    pub open spec fn crossfade_due(self, duration: QueryReply, position: QueryReply) -> bool {
        !self.is_crossfading && match (reply_seconds(duration), reply_seconds(position)) {
            (Some(end), Some(now)) => {
                &&& now < end
                &&& !self.crossfade_duration.nan()
                &&& (end - now) * one() <= self.crossfade_duration.units()
            },
            _ => false,
        }
    }

    /// Starts a crossfade to the file at a path, unless one is under way. The steps are to be
    /// taken in their order.
    pub fn start_crossfade(&mut self, next_uri: String) -> (r: Option<Vec<CrossfadeStep>>)
        ensures
            *final(self) == (GstPlayer { is_crossfading: true, ..*old(self) }),
            r is None <==> old(self).is_crossfading,
            r matches Some(steps) ==> starts_crossfade(
                steps@,
                old(self).active_pipeline.other(),
                next_uri@,
            ),
    {
        if self.is_crossfading {
            return None;
        }
        self.is_crossfading = true;
        let incoming: Pipeline = self.other_pipeline();
        let steps: Vec<CrossfadeStep> = vec![
            CrossfadeStep::SetUri(self.set_uri_next(next_uri)),
            CrossfadeStep::Perform(
                GstPlayer::set_volume_for_pipeline(incoming, Double::of_bits(0)),
            ),
            CrossfadeStep::Request(
                StateRequest { pipeline: incoming, target: PipelineState::Playing, required: true },
            ),
        ];
        Some(steps)
    }

    /// Takes the answer of the other pipeline to the request to play.
    pub fn crossfade_started(&mut self, started: bool) -> (r: Crossfade)
        ensures
            (*final(self), r.actions@, r.fade) == old(self).with_crossfade(started),
    {
        if !started {
            self.is_crossfading = false;
            return Crossfade { actions: Vec::new(), fade: None };
        }
        let outgoing: Pipeline = self.active_pipeline;
        let incoming: Pipeline = self.other_pipeline();
        self.active_pipeline = incoming;
        self.state = BackendPlaybackState::Playing;
        let mut actions: Vec<Action> = vec![
            Action::Send(PlaybackAction::PlaybackState(BackendPlaybackState::Playing)),
        ];
        let mut begun: Crossfade = self.perform_crossfade(outgoing, incoming);
        actions.append(&mut begun.actions);
        Crossfade { actions, fade: begun.fade }
    }

    /// Begins the fade from one pipeline to the other.
    pub fn perform_crossfade(&mut self, outgoing: Pipeline, incoming: Pipeline) -> (r: Crossfade)
        ensures
            (*final(self), r.actions@, r.fade) == old(self).with_fade(outgoing, incoming),
    {
        let duration: Double = self.crossfade_duration;
        let target: Double = self.volume;
        if duration.at_most(Double::of_bits(EPSILON_BITS)) {
            self.is_crossfading = false;
            return Crossfade { actions: end_fade(outgoing, incoming, target), fade: None };
        }
        let fewest: Double = Double::of_bits(FEWEST_STEPS_BITS);
        let steps: Double = duration.mul(fewest).clamp(fewest, Double::of_bits(MOST_STEPS_BITS));
        let spread: Double = duration.mul(Double::of_bits(THOUSAND_BITS)).div(steps);
        let shortest: Double = Double::of_bits(SHORTEST_INTERVAL_BITS);
        let interval_ms: u64 = if shortest.below(spread) {
            spread.truncate()
        } else {
            shortest.truncate()
        };
        Crossfade {
            actions: Vec::new(),
            fade: Some(Fade { outgoing, incoming, target, steps, step: 0, interval_ms }),
        }
    }

    /// Takes the next step of a fade; the timer stays until the fade is complete.
    pub fn fade_tick(&mut self, fade: &mut Fade) -> (r: Reaction)
        ensures
            *final(fade) == old(fade).stepped(),
            *final(self) == old(self).with_tick(*old(fade)),
            r.actions@ == old(fade).stepped().actions(),
            r.keep == !old(fade).stepped().complete(),
    {
        if fade.step < LAST_STEP {
            fade.step = fade.step + 1;
        }
        let zero: Double = Double::of_bits(0);
        let whole: Double = Double::of_bits(ONE_BITS);
        let progress: Double = Double::of_integer(fade.step).div(fade.steps).clamp(zero, whole);
        if whole.at_most(progress) {
            self.is_crossfading = false;
            return Reaction {
                actions: end_fade(fade.outgoing, fade.incoming, fade.target),
                keep: false,
            };
        }
        proof {
            broadcast use law_order_lt;

            lemma_one();
            lemma_grid_order(0, 0);
            assert(zero.units() == 0 && whole.units() == one());
        }
        let outgoing: Double = fade.target.mul(progress.one_minus());
        let incoming: Double = fade.target.mul(progress);
        let actions: Vec<Action> = vec![
            GstPlayer::set_volume_for_pipeline(fade.outgoing, outgoing),
            GstPlayer::set_volume_for_pipeline(fade.incoming, incoming),
        ];
        assert(actions@ =~= fade.actions());
        Reaction { actions, keep: true }
    }

    /// Whether to start a crossfade, given the duration and the position of the active
    /// pipeline: none is under way, and something is left of the track, but no more than the
    /// crossfade lasts.
    pub fn should_start_crossfade(&self, duration: QueryReply, position: QueryReply) -> (r: bool)
        ensures
            r == (!self.is_crossfading && match (reply_seconds(duration), reply_seconds(position)) {
                (Some(end), Some(now)) => {
                    &&& now < end
                    &&& !self.crossfade_duration.nan()
                    &&& (end - now) * one() <= self.crossfade_duration.units()
                },
                _ => false,
            }),
            r == self.crossfade_due(duration, position),
    {
        if self.is_crossfading {
            return false;
        }
        match (GstPlayer::pipeline_duration(duration), GstPlayer::pipeline_position(position)) {
            (Some(end), Some(now)) => {
                if now < end {
                    proof {
                        broadcast use law_order_le;

                        lemma_whole_exact(end - now);
                    }
                    Double::of_integer(end - now).at_most(self.crossfade_duration)
                } else {
                    false
                }
            },
            _ => false,
        }
    }
}

fn end_fade(outgoing: Pipeline, incoming: Pipeline, target: Double) -> (actions: Vec<Action>)
    ensures
        actions@ == fade_end(outgoing, incoming, target),
{
    let actions: Vec<Action> = vec![
        GstPlayer::set_volume_for_pipeline(incoming, target),
        GstPlayer::set_volume_for_pipeline(outgoing, Double::of_bits(0)),
        Action::ChangeState { pipeline: outgoing, target: PipelineState::Null },
    ];
    assert(actions@ =~= fade_end(outgoing, incoming, target));
    actions
}

} // verus!
