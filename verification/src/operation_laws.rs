//! What each request to the player, and each message of a pipeline, leads to.
use crate::action::{
    Action, BackendPlaybackState, BusMessage, MessageSource, Pipeline, PipelineState, PlaybackAction,
    QueryReply,
};
use crate::double::{grid, law_order_le, law_order_lt, one, place, Double};
use crate::laws::law_bit_patterns;
use crate::player::{
    audible, both_volumes, clock_news, held_volume, reply_seconds, reply_time, GstPlayer,
    UriChange,
};
use crate::transition::{state_requests, Progress, StateChangeError, StateRequest};
use crate::uri::{file_uri_of, law_uri_identifies_path};
use vstd::arithmetic::power2::*;
use vstd::prelude::*;

verus! {

/// Each pipeline is the other of its other, and of no other.
pub proof fn law_two_pipelines(pipeline: Pipeline, another: Pipeline)
    ensures
        pipeline.other() != pipeline,
        pipeline.other().other() == pipeline,
        another == pipeline || another == pipeline.other(),
{
}

/// Pausing, loading and playing ask the active pipeline first, and need it: for the paused,
/// the ready and the playing state. Pausing goes on to ask the other pipeline for the paused
/// state without needing it, and stopping needs both shut down, the primary one first.
/// Nothing else is asked.
pub proof fn law_requests(active: Pipeline, state: BackendPlaybackState)
    ensures
        ({
            let requests = state_requests(active, state);
            let first = requests[0];
            let second = requests[1];
            &&& state == BackendPlaybackState::Paused ==> {
                &&& requests.len() == 2
                &&& first.pipeline == active && second.pipeline != active
                &&& first.target == PipelineState::Paused && second.target == PipelineState::Paused
                &&& first.required && !second.required
            }
            &&& state == BackendPlaybackState::Stopped ==> {
                &&& requests.len() == 2
                &&& first.pipeline == Pipeline::Primary && second.pipeline == Pipeline::Secondary
                &&& first.target == PipelineState::Null && second.target == PipelineState::Null
                &&& first.required && second.required
            }
            &&& state == BackendPlaybackState::Loading ==> {
                &&& requests.len() == 1
                &&& first.pipeline == active
                &&& first.target == PipelineState::Ready
                &&& first.required
            }
            &&& state == BackendPlaybackState::Playing ==> {
                &&& requests.len() == 1
                &&& first.pipeline == active
                &&& first.target == PipelineState::Playing
                &&& first.required
            }
        }),
{
}

/// Whether a request to `pipeline` for `target` is among `requests` exactly once, and no
/// other to that pipeline.
pub open spec fn reached_once(
    requests: Seq<StateRequest>,
    pipeline: Pipeline,
    target: PipelineState,
) -> bool {
    exists|i: int| #![trigger requests[i]]
        0 <= i < requests.len() && requests[i].target == target && forall|j: int| #![trigger requests[j]]
            0 <= j < requests.len() ==> (requests[j].pipeline == pipeline <==> j == i)
}

/// Pausing and stopping reach each of the two pipelines once; whatever the state, the active
/// pipeline is reached once.
pub proof fn law_requests_reach_pipelines(active: Pipeline, pipeline: Pipeline)
    ensures
        reached_once(
            state_requests(active, BackendPlaybackState::Paused),
            pipeline,
            PipelineState::Paused,
        ),
        reached_once(
            state_requests(active, BackendPlaybackState::Stopped),
            pipeline,
            PipelineState::Null,
        ),
        reached_once(
            state_requests(active, BackendPlaybackState::Loading),
            active,
            PipelineState::Ready,
        ),
        reached_once(
            state_requests(active, BackendPlaybackState::Playing),
            active,
            PipelineState::Playing,
        ),
{
    let paused = state_requests(active, BackendPlaybackState::Paused);
    let stopped = state_requests(active, BackendPlaybackState::Stopped);
    let loading = state_requests(active, BackendPlaybackState::Loading);
    let playing = state_requests(active, BackendPlaybackState::Playing);
    let i = if pipeline == active {
        0int
    } else {
        1
    };
    let k = if pipeline == Pipeline::Primary {
        0int
    } else {
        1
    };
    assert(paused[i].target == PipelineState::Paused);
    assert(stopped[k].target == PipelineState::Null);
    assert(loading[0].target == PipelineState::Ready);
    assert(playing[0].target == PipelineState::Playing);
}

/// The requests that are made, one after the other, when `answers[i]` is the answer to the
/// request `i`.
pub open spec fn requests_made(progress: Progress, answers: Seq<bool>) -> Seq<StateRequest>
    decreases progress.requests.len() - progress.answered,
{
    match progress.pending() {
        Some(request) => seq![request] + requests_made(
            progress.recorded(answers[progress.answered]),
            answers,
        ),
        None => Seq::empty(),
    }
}

proof fn lemma_requests_made(progress: Progress, answers: Seq<bool>)
    requires
        0 <= progress.answered <= progress.requests.len(),
        !progress.failed,
    ensures
        ({
            let made = requests_made(progress, answers);
            let from = progress.answered;
            let to = from + made.len();
            &&& to <= progress.requests.len()
            &&& made == progress.requests.subrange(from, to)
            &&& forall|i: int|
                from <= i < to - 1 ==> answers[i] || !(#[trigger] progress.requests[i]).required
            &&& to < progress.requests.len() ==> to > from && !answers[to - 1]
                && progress.requests[to - 1].required
            &&& progress.finished(answers).failed <==> to > from && !answers[to - 1]
                && progress.requests[to - 1].required
        }),
    decreases progress.requests.len() - progress.answered,
{
    let from = progress.answered;
    let made = requests_made(progress, answers);
    if from < progress.requests.len() {
        let next = progress.recorded(answers[from]);
        let rest = requests_made(next, answers);
        assert(progress.finished(answers) == next.finished(answers));
        if next.failed {
            assert(next.finished(answers) == next);
            assert(rest =~= Seq::empty());
        } else {
            lemma_requests_made(next, answers);
        }
        assert(made =~= progress.requests.subrange(from, from + made.len()));
    } else {
        assert(made =~= progress.requests.subrange(from, from));
    }
}

/// A change of state makes its requests in order, from the first up to the first required
/// one that is refused, or else to the last; it fails in the former case, and in no other.
pub proof fn law_requests_are_made_in_order(requests: Seq<StateRequest>, answers: Seq<bool>)
    ensures
        ({
            let made = requests_made(Progress::start(requests), answers);
            let result = Progress::start(requests).finished(answers).outcome();
            let last = made.len() - 1;
            let refused = last >= 0 && !answers[last] && requests[last].required;
            &&& made.len() <= requests.len()
            &&& made == requests.take(made.len() as int)
            &&& forall|i: int| 0 <= i < last ==> answers[i] || !(#[trigger] requests[i]).required
            &&& made.len() < requests.len() ==> refused
            &&& result == (if refused {
                Err::<(), StateChangeError>(StateChangeError)
            } else {
                Ok::<(), StateChangeError>(())
            })
        }),
{
    lemma_requests_made(Progress::start(requests), answers);
}

/// The player takes note of a state itself only if it has stopped its pipelines; then it
/// tells its listeners, once.
pub proof fn law_noting_a_state(
    player: GstPlayer,
    state: BackendPlaybackState,
    result: Result<(), StateChangeError>,
)
    ensures
        ({
            let (after, actions) = player.with_state(state, result);
            if state == BackendPlaybackState::Stopped && result is Ok {
                &&& after.state == BackendPlaybackState::Stopped
                &&& after == (GstPlayer { state: after.state, ..player })
                &&& actions == seq![
                    Action::Send(PlaybackAction::PlaybackState(BackendPlaybackState::Stopped)),
                ]
            } else {
                after == player && actions == Seq::<Action>::empty()
            }
        }),
{
}

/// Whatever state the player was in, after news from its active pipeline it is in the state
/// that the pipeline's stands for: stopped, loading, paused or playing. Its listeners are
/// told that state exactly if it is new, and then the volume is checked exactly if it plays.
/// It does not matter on which bus the news came.
pub proof fn law_player_follows_its_pipeline(
    player: GstPlayer,
    current: PipelineState,
    state: BackendPlaybackState,
    bus: Pipeline,
)
    requires
        ({
            ||| current == PipelineState::Null && state == BackendPlaybackState::Stopped
            ||| current == PipelineState::Ready && state == BackendPlaybackState::Loading
            ||| current == PipelineState::Paused && state == BackendPlaybackState::Paused
            ||| current == PipelineState::Playing && state == BackendPlaybackState::Playing
        }),
    ensures
        ({
            let source = MessageSource::Pipeline(player.active_pipeline);
            let (after, actions) = player.with_pipeline_state(source, current);
            let told = Action::Send(PlaybackAction::PlaybackState(state));
            let is_new = player.state != state;
            let plays = state == BackendPlaybackState::Playing;
            &&& player.with_message(BusMessage::StateChanged { source, current }, bus) == (
                after,
                actions,
            )
            &&& after == (GstPlayer { state, ..player })
            &&& is_new && plays ==> actions == seq![told, Action::CheckVolume]
            &&& is_new && !plays ==> actions == seq![told]
            &&& !is_new && plays ==> actions == seq![Action::CheckVolume]
            &&& !is_new && !plays ==> actions == Seq::<Action>::empty()
        }),
{
    let source = MessageSource::Pipeline(player.active_pipeline);
    let (after, actions) = player.with_pipeline_state(source, current);
    let told = Action::Send(PlaybackAction::PlaybackState(state));
    assert(seq![told] + seq![Action::CheckVolume] =~= seq![told, Action::CheckVolume]);
    assert(seq![told] + Seq::empty() =~= seq![told]);
    assert(Seq::empty() + seq![Action::CheckVolume] =~= seq![Action::CheckVolume]);
    assert(Seq::<Action>::empty() + Seq::empty() =~= Seq::<Action>::empty());
}

/// News from anything but the active pipeline, or of no settled state, changes nothing and
/// leads to nothing.
pub proof fn law_other_news_is_ignored(
    player: GstPlayer,
    source: MessageSource,
    current: PipelineState,
    bus: Pipeline,
)
    requires
        source != MessageSource::Pipeline(player.active_pipeline) || current
            == PipelineState::VoidPending,
    ensures
        player.with_pipeline_state(source, current) == (player, Seq::<Action>::empty()),
        player.with_message(BusMessage::StateChanged { source, current }, bus) == (
            player,
            Seq::<Action>::empty(),
        ),
{
}

/// The end of a stream on the active pipeline stops the player and is told to its listeners,
/// in every state, unless a crossfade is under way; on the other pipeline it leads to
/// nothing. The player itself is not changed.
pub proof fn law_end_of_stream(player: GstPlayer, bus: Pipeline)
    ensures
        player.with_message(BusMessage::Eos, bus).0 == player,
        bus == player.active_pipeline && !player.is_crossfading ==> player.with_message(
            BusMessage::Eos,
            bus,
        ).1 == seq![
            Action::SetState(BackendPlaybackState::Stopped),
            Action::Send(PlaybackAction::EOS),
        ],
        bus != player.active_pipeline || player.is_crossfading ==> player.with_message(
            BusMessage::Eos,
            bus,
        ).1.len() == 0,
{
}

/// An error on either pipeline stops the player and is told to its listeners, in every
/// state, crossfade or not.
pub proof fn law_error(player: GstPlayer, bus: Pipeline)
    ensures
        player.with_message(BusMessage::Error, bus) == (
            player,
            seq![
                Action::SetState(BackendPlaybackState::Stopped),
                Action::Send(PlaybackAction::Error),
            ],
        ),
{
}

/// A new clock replaces the one before on either pipeline and wakes the player once a second
/// from its present time on; without a clock the player is woken no more. A new stream has
/// its duration queried every millisecond. Other messages lead to nothing.
pub proof fn law_other_messages(player: GstPlayer, bus: Pipeline, start: u64)
    ensures
        player.with_message(BusMessage::NewClock(Some(start)), bus) == (
            player,
            seq![Action::StopClock, Action::StartClock { start, interval: 1_000_000_000 }],
        ),
        player.with_message(BusMessage::NewClock(None), bus) == (player, seq![Action::StopClock]),
        player.with_message(BusMessage::StreamStart, bus) == (
            player,
            seq![Action::PollDuration { interval_ms: 1 }],
        ),
        player.with_message(BusMessage::Other, bus) == (player, Seq::<Action>::empty()),
{
}

/// The seconds of a reply are those that have passed in full at its time; without a time
/// there are none. The clock's news is read in the same way, and a duration is kept as it is
/// replied, the rest of the player as it is.
pub proof fn law_times(player: GstPlayer, reply: QueryReply, time: u64)
    ensures
        reply_time(QueryReply::Time(Some(time))) == Some(time),
        reply_seconds(QueryReply::Time(Some(time))) is Some,
        ({
            let second = reply_seconds(QueryReply::Time(Some(time)))->0;
            &&& second * 1_000_000_000 <= time < (second + 1) * 1_000_000_000
            &&& clock_news(Some(time)) == Some(PlaybackAction::Tick(second))
        }),
        clock_news(None) is None,
        reply_seconds(reply) is None <==> reply == QueryReply::Unanswered || reply
            == QueryReply::OtherFormat || reply == QueryReply::Time(None),
        reply_time(reply) is None <==> reply_seconds(reply) is None,
        player.with_reply(reply) == (GstPlayer { duration: reply_seconds(reply), ..player }),
{
}

/// A file to play now goes to the active pipeline and one to play next to the other, each
/// under the URI of its own path.
pub proof fn law_uri_changes(
    player: GstPlayer,
    now: UriChange,
    next: UriChange,
    path: Seq<char>,
    next_path: Seq<char>,
)
    requires
        player.plays_file(now, path),
        player.plays_file_next(next, next_path),
    ensures
        now.pipeline == player.active_pipeline,
        next.pipeline != player.active_pipeline,
        now.uri@ == file_uri_of(path),
        next.uri@ == file_uri_of(next_path),
        now.uri@ == next.uri@ <==> path == next_path,
{
    law_uri_identifies_path(path, next_path);
}

/// A seek sends the active pipeline to a second, counted in nanoseconds.
pub proof fn law_seek(player: GstPlayer, seconds: u64)
    requires
        seconds * 1_000_000_000 <= u64::MAX,
    ensures
        player.seek_request(seconds).pipeline == player.active_pipeline,
        player.seek_request(seconds).position == seconds * 1_000_000_000,
        player.seek_request(seconds).flush,
        player.seek_request(seconds).key_unit,
{
}

/// A volume above the silence level and up to one is played as it is, one above that is
/// played at one, and one at the silence level or below is silence. What is not a number
/// stays as it is.
pub proof fn law_volume(volume: Double)
    ensures
        ({
            let silence = Double::of_bits(0x3FA9_9999_9999_999A);
            let full = Double::of_bits(0x3FF0_0000_0000_0000);
            &&& volume.nan() ==> audible(volume) == volume
            &&& volume.le(silence) ==> audible(volume) == Double::of_bits(0)
            &&& silence.lt(volume) && volume.le(full) ==> audible(volume) == volume
            &&& full.lt(volume) ==> audible(volume) == full
        }),
        !volume.nan() && volume.units() <= 0 ==> audible(volume) == Double::of_bits(0),
        !volume.nan() && 10 * volume.units() >= one() && volume.units() <= one() ==> audible(volume)
            == volume,
        !volume.nan() && volume.units() >= one() ==> audible(volume).units() == one(),
{
    broadcast use {law_order_le, law_order_lt};

    law_bit_patterns();
    lemma_silence_level();
}

/// The silence level is above zero and below a tenth.
proof fn lemma_silence_level()
    ensures
        0 < Double::of_bits(0x3FA9_9999_9999_999A).units(),
        10 * Double::of_bits(0x3FA9_9999_9999_999A).units() < one(),
{
    let s = 0x3FA9_9999_9999_999Aint;
    lemma2_to64();
    lemma2_to64_rest();
    lemma_pow2_adds(57, 1017);
    lemma_pow2_pos(1017);
    let p = pow2(1017) as int;
    assert(place(s) == 1017);
    assert(grid(s) == 0x19_9999_9999_999A * p);
    assert(one() == 0x200_0000_0000_0000 * p);
}

/// Whether `held` is `x`, held between zero and one: `x` itself where it lies there or is
/// not a number.
pub open spec fn held_to_one(held: Double, x: Double) -> bool {
    if x.nan() {
        held == x
    } else if x.units() < 0 {
        held == Double::of_bits(0)
    } else if x.units() > one() {
        held == Double::of_bits(0x3FF0_0000_0000_0000)
    } else {
        held == x
    }
}

/// Setting the volume of a pipeline sets that pipeline, to that volume held between zero and
/// one. A linear volume is kept and set on each pipeline once.
pub proof fn law_setting_volumes(player: GstPlayer, pipeline: Pipeline, volume: Double)
    ensures
        held_volume(pipeline, volume) matches Action::SetVolume { pipeline: p, volume: v } && p
            == pipeline && held_to_one(v, volume),
        both_volumes(volume) == seq![
            Action::SetVolume { pipeline: Pipeline::Primary, volume },
            Action::SetVolume { pipeline: Pipeline::Secondary, volume },
        ],
        player.with_linear_volume(volume) == (
            GstPlayer { volume, ..player },
            seq![
                Action::SetVolume { pipeline: Pipeline::Primary, volume },
                Action::SetVolume { pipeline: Pipeline::Secondary, volume },
            ],
        ),
{
    broadcast use {law_order_le, law_order_lt};

    law_bit_patterns();
}

/// The volume is set again exactly if the pipeline does not have the player's, and then on
/// both pipelines; a volume that is not a number is never the player's.
pub proof fn law_volume_repair(player: GstPlayer, reported: Double)
    ensures
        !reported.nan() && !player.volume.nan() && reported.units() == player.volume.units()
            ==> player.volume_repair(reported) == Seq::<Action>::empty(),
        reported.nan() || player.volume.nan() || reported.units() != player.volume.units()
            ==> player.volume_repair(reported) == seq![
            Action::SetVolume { pipeline: Pipeline::Primary, volume: player.volume },
            Action::SetVolume { pipeline: Pipeline::Secondary, volume: player.volume },
        ],
{
    broadcast use {law_order_le, law_order_lt};

}

/// A crossfade duration from zero to twelve is kept as it is, a shorter one becomes zero and
/// a longer one twelve; nothing else of the player changes.
pub proof fn law_setting_the_crossfade_duration(player: GstPlayer, duration: Double)
    ensures
        ({
            let kept = player.with_crossfade_duration(duration).crossfade_duration;
            &&& player.with_crossfade_duration(duration) == (GstPlayer {
                crossfade_duration: kept,
                ..player
            })
            &&& duration.nan() ==> kept == duration
            &&& !duration.nan() && 0 <= duration.units() <= 12 * one() ==> kept == duration
            &&& !duration.nan() && duration.units() < 0 ==> kept == Double::of_bits(0)
            &&& !duration.nan() && duration.units() > 12 * one() ==> kept == Double::of_bits(
                0x4028_0000_0000_0000,
            )
        }),
        player.well_formed() <==> player.crossfade_duration.nan() || 0
            <= player.crossfade_duration.units() <= 12 * one(),
{
    broadcast use {law_order_le, law_order_lt};

    law_bit_patterns();
}

/// It is time for a crossfade exactly if none is under way, the whole seconds of duration and
/// position are known, and their difference is above zero and at most the crossfade duration.
pub proof fn law_crossfade_due(
    player: GstPlayer,
    duration: QueryReply,
    position: QueryReply,
    end: u64,
    now: u64,
)
    ensures
        player.is_crossfading ==> !player.crossfade_due(duration, position),
        player.crossfade_duration.nan() ==> !player.crossfade_due(duration, position),
        !(duration matches QueryReply::Time(Some(_))) || !(position matches QueryReply::Time(Some(_)))
            ==> !player.crossfade_due(duration, position),
        !player.is_crossfading && !player.crossfade_duration.nan() ==> {
            let left = end as int / 1_000_000_000 - now as int / 1_000_000_000;
            player.crossfade_due(QueryReply::Time(Some(end)), QueryReply::Time(Some(now))) <==> left > 0
                && left * one() <= player.crossfade_duration.units()
        },
{
}

} // verus!
