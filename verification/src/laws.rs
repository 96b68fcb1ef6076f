//! What holds of the player as a whole.
use crate::action::{
    Action, BackendPlaybackState, BusMessage, MessageSource, Pipeline, PipelineState, PlaybackAction,
    QueryReply,
};
use crate::crossfade::{
    starts_crossfade, CrossfadeStep, Fade, EPSILON_BITS, FEWEST_STEPS_BITS, MOST_STEPS_BITS,
    SHORTEST_INTERVAL_BITS, THOUSAND_BITS,
};
use crate::double::{
    grid, lemma_grid_order, lemma_grid_step, one, place, Double, FRACTION_RANGE, ONE_BITS, UNIT_SHIFT,
};
use crate::player::{
    audible, reply_seconds, GstPlayer, DEFAULT_CROSSFADE_BITS, LAST_SECOND, LONGEST_CROSSFADE_BITS,
    SECOND, SILENCE_BITS,
};
use crate::rounding::{lemma_nearest, lemma_one, nearest, rounds_to};
use crate::transition::{law_state_change, state_requests, Progress, StateChangeError};
use vstd::arithmetic::power2::*;
use vstd::prelude::*;

verus! {

/// The state that the listeners were told last, if they were told any.
pub open spec fn announced(actions: Seq<Action>) -> Option<BackendPlaybackState>
    decreases actions.len(),
{
    if actions.len() == 0 {
        None
    } else {
        match actions.last() {
            Action::Send(PlaybackAction::PlaybackState(state)) => Some(state),
            _ => announced(actions.drop_last()),
        }
    }
}

/// Whether the listeners of `before` know the state of `after` once they got `actions`.
pub open spec fn listeners_know(before: GstPlayer, after: GstPlayer, actions: Seq<Action>) -> bool {
    match announced(actions) {
        Some(state) => after.state == state,
        None => after.state == before.state,
    }
}

proof fn lemma_announced(actions: Seq<Action>, action: Action)
    ensures
        announced(Seq::<Action>::empty()) is None,
        announced(actions.push(action)) == (match action {
            Action::Send(PlaybackAction::PlaybackState(state)) => Some(state),
            _ => announced(actions),
        }),
{
    assert(actions.push(action).drop_last() =~= actions);
}

/// What listeners are told by up to four actions.
proof fn lemma_announced_by_few(actions: Seq<Action>)
    requires
        actions.len() <= 4,
    ensures
        announced(actions) is Some ==> exists|i: int|
            0 <= i < actions.len() && #[trigger] actions[i] == Action::Send(
                PlaybackAction::PlaybackState(announced(actions)->0),
            ),
        announced(actions) is None ==> forall|i: int|
            0 <= i < actions.len() ==> !(#[trigger] actions[i] matches Action::Send(
                PlaybackAction::PlaybackState(_),
            )),
    decreases actions.len(),
{
    if actions.len() > 0 {
        lemma_announced_by_few(actions.drop_last());
        assert(actions =~= actions.drop_last().push(actions.last()));
        lemma_announced(actions.drop_last(), actions.last());
        let rest = actions.drop_last();
        assert(forall|i: int| 0 <= i < rest.len() ==> #[trigger] actions[i] == rest[i]);
    }
}

/// The player never changes its state without telling its listeners, and the last state
/// that they are told is the one that it is in.
pub proof fn law_listeners_know_the_state(
    player: GstPlayer,
    state: BackendPlaybackState,
    result: Result<(), StateChangeError>,
    message: BusMessage,
    pipeline: Pipeline,
    started: bool,
    fade: Fade,
)
    ensures
        ({
            let (after, actions) = player.with_state(state, result);
            listeners_know(player, after, actions)
        }),
        ({
            let (after, actions) = player.with_message(message, pipeline);
            listeners_know(player, after, actions)
        }),
        ({
            let (after, actions, _) = player.with_crossfade(started);
            listeners_know(player, after, actions)
        }),
        listeners_know(player, player.with_tick(fade), fade.stepped().actions()),
{
    lemma_announced_by_few(player.with_state(state, result).1);
    lemma_announced_by_few(player.with_message(message, pipeline).1);
    lemma_announced_by_few(player.with_crossfade(started).1);
    lemma_announced_by_few(fade.stepped().actions());
    if let BusMessage::StateChanged { source, current } = message {
        let (after, actions) = player.with_pipeline_state(source, current);
        if after.state != player.state {
            assert(actions[0] == Action::Send(PlaybackAction::PlaybackState(after.state)));
        }
    }
    let (after, actions, _) = player.with_crossfade(started);
    if started {
        assert(actions[0] == Action::Send(PlaybackAction::PlaybackState(after.state)));
    }
}

/// Stopping the player, whatever the two pipelines answer: if both shut down, the player
/// is stopped and its listeners are told so; if one refuses, nothing changes.
pub proof fn law_stopping(player: GstPlayer, primary: bool, secondary: bool)
    ensures
        ({
            let requests = state_requests(player.active_pipeline, BackendPlaybackState::Stopped);
            let result = Progress::start(requests).finished(seq![primary, secondary]).outcome();
            let (after, actions) = player.with_state(BackendPlaybackState::Stopped, result);
            if primary && secondary {
                &&& after == (GstPlayer { state: BackendPlaybackState::Stopped, ..player })
                &&& actions == seq![
                    Action::Send(PlaybackAction::PlaybackState(BackendPlaybackState::Stopped)),
                ]
            } else {
                after == player && actions == Seq::<Action>::empty()
            }
        }),
{
    let requests = state_requests(player.active_pipeline, BackendPlaybackState::Stopped);
    let answers = seq![primary, secondary];
    law_state_change(requests, answers);
    assert(requests[0].required && requests[1].required);
    assert(answers[0] == primary && answers[1] == secondary);
}

/// Pausing depends on the active pipeline alone, starting and loading too.
pub proof fn law_active_pipeline_decides(
    player: GstPlayer,
    state: BackendPlaybackState,
    active: bool,
    other: bool,
)
    requires
        state != BackendPlaybackState::Stopped,
    ensures
        Progress::start(state_requests(player.active_pipeline, state)).finished(
            seq![active, other],
        ).outcome() is Ok <==> active,
{
    let requests = state_requests(player.active_pipeline, state);
    let answers = seq![active, other];
    law_state_change(requests, answers);
    assert(requests[0].required);
    assert(answers[0] == active);
}

/// The pipeline that is not active can neither change the player nor have it do anything,
/// but for reporting an error, a clock or a stream.
pub proof fn law_inactive_pipeline_is_ignored(player: GstPlayer, current: PipelineState)
    ensures
        ({
            let inactive = player.active_pipeline.other();
            let source = MessageSource::Pipeline(inactive);
            &&& player.with_message(BusMessage::Eos, inactive) == (player, Seq::<Action>::empty())
            &&& forall|pipeline: Pipeline|
                #[trigger] player.with_message(
                    BusMessage::StateChanged { source, current },
                    pipeline,
                ) == (player, Seq::<Action>::empty())
        }),
{
}

/// While a crossfade is under way the end of a stream is ignored, on either pipeline.
pub proof fn law_crossfade_outlasts_the_track(player: GstPlayer, pipeline: Pipeline)
    requires
        player.is_crossfading,
    ensures
        player.with_message(BusMessage::Eos, pipeline) == (player, Seq::<Action>::empty()),
{
}

/// The bounds of the crossfade duration are kept, whatever happens.
pub proof fn law_well_formed(
    player: GstPlayer,
    state: BackendPlaybackState,
    result: Result<(), StateChangeError>,
    message: BusMessage,
    pipeline: Pipeline,
    started: bool,
    fade: Fade,
    volume: Double,
    reply: QueryReply,
)
    requires
        player.well_formed(),
    ensures
        (GstPlayer { volume, ..player }).well_formed(),
        (GstPlayer { duration: reply_seconds(reply), ..player }).well_formed(),
        (GstPlayer { is_crossfading: true, ..player }).well_formed(),
        player.with_state(state, result).0.well_formed(),
        player.with_message(message, pipeline).0.well_formed(),
        player.with_crossfade(started).0.well_formed(),
        player.with_tick(fade).well_formed(),
{
}

/// A crossfade swaps the pipelines, and a second one swaps them back; one that does not
/// start leaves the player as it was before it was asked for.
pub proof fn law_crossfade_swaps(player: GstPlayer)
    requires
        !player.is_crossfading,
    ensures
        ({
            let asked = GstPlayer { is_crossfading: true, ..player };
            let (once, _, _) = asked.with_crossfade(true);
            let (twice, _, _) = once.with_crossfade(true);
            &&& once.active_pipeline != player.active_pipeline
            &&& twice.active_pipeline == player.active_pipeline
            &&& asked.with_crossfade(false).0 == player
        }),
{
}

/// The pipeline that a step of starting a crossfade is about, if it is about one alone.
pub open spec fn step_pipeline(step: CrossfadeStep) -> Option<Pipeline> {
    match step {
        CrossfadeStep::SetUri(change) => Some(change.pipeline),
        CrossfadeStep::Perform(Action::SetVolume { pipeline, .. }) => Some(pipeline),
        CrossfadeStep::Perform(Action::ChangeState { pipeline, .. }) => Some(pipeline),
        CrossfadeStep::Perform(_) => None,
        CrossfadeStep::Request(request) => Some(request.pipeline),
    }
}

/// A crossfade that takes time leaves the outgoing pipeline alone, and the incoming one
/// silent, until the first tick of its fade: every step of its start is about the incoming
/// pipeline, and once that plays, the listeners are told and nothing else is done. The
/// player keeps its volume, its crossfade duration and the duration of the track.
pub proof fn law_crossfade_begins(player: GstPlayer, path: Seq<char>, steps: Seq<CrossfadeStep>)
    requires
        !player.crossfade_duration.le(Double::of_bits(EPSILON_BITS)),
        starts_crossfade(steps, player.active_pipeline.other(), path),
    ensures
        forall|i: int|
            0 <= i < steps.len() ==> step_pipeline(#[trigger] steps[i]) == Some(
                player.active_pipeline.other(),
            ),
        ({
            let asked = GstPlayer { is_crossfading: true, ..player };
            let (after, actions, fade) = asked.with_crossfade(true);
            &&& after == (GstPlayer {
                active_pipeline: player.active_pipeline.other(),
                state: BackendPlaybackState::Playing,
                is_crossfading: true,
                ..player
            })
            &&& actions == seq![
                Action::Send(PlaybackAction::PlaybackState(BackendPlaybackState::Playing)),
            ]
            &&& fade is Some
            &&& fade->0.outgoing == player.active_pipeline
            &&& fade->0.incoming == player.active_pipeline.other()
            &&& fade->0.target == player.volume
            &&& fade->0.step == 0
        }),
{
}

/// The position of a pipeline that stands where it was sent is the second that was asked
/// for.
pub proof fn law_seek_position(seconds: u64)
    requires
        seconds <= LAST_SECOND,
    ensures
        reply_seconds(QueryReply::Time(Some((seconds * SECOND) as u64))) == Some(seconds),
{
}

/// Clamping gives a number between the bounds, and keeps one that lies there; what is not
/// a number stays so.
pub proof fn law_clamp(x: Double, low: Double, high: Double)
    requires
        low.le(high),
    ensures
        x.nan() ==> x.clamped(low, high) == x,
        !x.nan() ==> low.le(x.clamped(low, high)) && x.clamped(low, high).le(high),
        low.le(x) && x.le(high) ==> x.clamped(low, high) == x,
        x.clamped(low, high).clamped(low, high) == x.clamped(low, high),
{
}

/// The volume to play at is silence or a number above the silence level and up to one, and
/// asking for it again changes nothing; what is not a number stays so.
pub proof fn law_audible(volume: Double)
    ensures
        volume.nan() ==> audible(volume) == volume,
        !volume.nan() ==> audible(volume) == Double::of_bits(0) || (Double::of_bits(
            SILENCE_BITS,
        ).lt(audible(volume)) && audible(volume).le(Double::of_bits(ONE_BITS))),
        audible(audible(volume)) == audible(volume),
{
}

proof fn lemma_pattern(bits: int, m: int, p: nat, n: int)
    requires
        place(bits) == p,
        p <= UNIT_SHIFT,
        bits - p * FRACTION_RANGE == m,
        m == n * pow2((UNIT_SHIFT - p) as nat),
    ensures
        grid(bits) == n * one(),
{
    let a = pow2((UNIT_SHIFT - p) as nat) as int;
    let b = pow2(p) as int;
    lemma_pow2_adds((UNIT_SHIFT - p) as nat, p);
    assert((n * a) * b == n * (a * b)) by (nonlinear_arith);
}

/// The bit patterns that the player uses stand for the numbers that they are named after.
pub proof fn law_bit_patterns()
    ensures
        Double::of_bits(0).units() == 0,
        Double::of_bits(ONE_BITS).units() == one(),
        Double::of_bits(DEFAULT_CROSSFADE_BITS).units() == 3 * one(),
        Double::of_bits(LONGEST_CROSSFADE_BITS).units() == 12 * one(),
        Double::of_bits(SHORTEST_INTERVAL_BITS).units() == 10 * one(),
        Double::of_bits(FEWEST_STEPS_BITS).units() == 20 * one(),
        Double::of_bits(MOST_STEPS_BITS).units() == 200 * one(),
        Double::of_bits(THOUSAND_BITS).units() == 1000 * one(),
        Double::of_bits(EPSILON_BITS).units() * pow2(52) == one(),
        nearest(5 * one(), 100) == SILENCE_BITS,
{
    lemma2_to64();
    lemma2_to64_rest();
    lemma_grid_order(0, 0);
    lemma_one();
    lemma_pattern(DEFAULT_CROSSFADE_BITS as int, 0x18_0000_0000_0000, 1023, 3);
    lemma_pattern(LONGEST_CROSSFADE_BITS as int, 0x18_0000_0000_0000, 1025, 12);
    lemma_pattern(SHORTEST_INTERVAL_BITS as int, 0x14_0000_0000_0000, 1025, 10);
    lemma_pattern(FEWEST_STEPS_BITS as int, 0x14_0000_0000_0000, 1026, 20);
    lemma_pattern(MOST_STEPS_BITS as int, 0x19_0000_0000_0000, 1029, 200);
    lemma_pattern(THOUSAND_BITS as int, 0x1F_4000_0000_0000, 1031, 1000);
    assert(place(EPSILON_BITS as int) == 970);
    lemma_pow2_adds(52, 970);
    lemma_pow2_adds(1022, 52);
    lemma_silence_pattern();
}

proof fn lemma_silence_pattern()
    ensures
        nearest(5 * one(), 100) == SILENCE_BITS,
{
    let s = SILENCE_BITS as int;
    assert(place(s) == 1017);
    lemma_grid_step(s);
    lemma_grid_step(s - 1);
    lemma2_to64();
    lemma2_to64_rest();
    lemma_pow2_adds(57, 1017);
    let p = pow2(1017) as int;
    lemma_pow2_pos(1017);
    assert(place(s - 1) == 1017);
    assert(grid(s) == 0x19_9999_9999_999A * p);
    assert(one() == 0x200_0000_0000_0000 * p);
    let g = grid(s);
    assert(grid(s - 1) == g - p);
    assert(grid(s + 1) == g + p);
    let u = one();
    assert(100 * ((g - p) + g) <= 2 * (5 * u)) by (nonlinear_arith)
        requires
            g == 0x19_9999_9999_999A * p,
            u == 0x200_0000_0000_0000 * p,
            p > 0,
    ;
    assert(2 * (5 * u) <= 100 * (g + (g + p))) by (nonlinear_arith)
        requires
            g == 0x19_9999_9999_999A * p,
            u == 0x200_0000_0000_0000 * p,
            p > 0,
    ;
    assert(rounds_to(5 * one(), 100, s));
    lemma_nearest(5 * one(), 100);
}

} // verus!
