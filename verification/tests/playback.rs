use gst_backend::action::{
    Action, BackendPlaybackState, BusMessage, MessageSource, Pipeline, PipelineState, PlaybackAction,
    QueryReply,
};
use gst_backend::double::Double;
use gst_backend::player::GstPlayer;
use gst_backend::transition::{StateChange, StateChangeError, StateRequest};

fn of(x: f64) -> Double {
    Double::of_bits(x.to_bits())
}

fn request(pipeline: Pipeline, target: PipelineState, required: bool) -> StateRequest {
    StateRequest { pipeline, target, required }
}

/// Runs a change of state against pipelines that give these answers, and returns the
/// requests that were made and the result.
fn run(change: &mut StateChange, answers: &[bool]) -> (Vec<StateRequest>, Result<(), StateChangeError>) {
    let mut made = Vec::new();
    while let Some(next) = change.next_request() {
        assert!(change.result().is_none());
        let answer = answers[made.len()];
        made.push(next);
        change.record(answer);
    }
    (made, change.result().unwrap())
}

#[test]
fn a_new_player_is_stopped_and_silent() {
    let player = GstPlayer::new();
    assert_eq!(player.pipeline(), Pipeline::Primary);
    assert_eq!(player.other_pipeline(), Pipeline::Secondary);
    assert_eq!(player.state(), BackendPlaybackState::Stopped);
    assert_eq!(player.duration(), None);
    assert_eq!(player.volume, of(0.0));
    assert_eq!(player.crossfade_duration(), of(3.0));
    assert!(!player.is_crossfading);
    assert_eq!(BackendPlaybackState::default(), BackendPlaybackState::Stopped);
}

#[test]
fn pausing_asks_the_active_pipeline_and_then_the_other() {
    let mut player = GstPlayer::new();
    player.active_pipeline = Pipeline::Secondary;
    let wanted = vec![
        request(Pipeline::Secondary, PipelineState::Paused, true),
        request(Pipeline::Primary, PipelineState::Paused, false),
    ];
    let mut change = player.set_pipeline_gst_state(BackendPlaybackState::Paused);
    assert_eq!(run(&mut change, &[true, false]), (wanted.clone(), Ok(())));
    let mut change = player.set_pipeline_gst_state(BackendPlaybackState::Paused);
    assert_eq!(run(&mut change, &[true, true]), (wanted.clone(), Ok(())));
    let mut change = player.set_pipeline_gst_state(BackendPlaybackState::Paused);
    assert_eq!(run(&mut change, &[false]), (wanted[..1].to_vec(), Err(StateChangeError)));
}

#[test]
fn stopping_shuts_both_pipelines_down() {
    let player = GstPlayer::new();
    let wanted = vec![
        request(Pipeline::Primary, PipelineState::Null, true),
        request(Pipeline::Secondary, PipelineState::Null, true),
    ];
    let mut change = player.set_pipeline_gst_state(BackendPlaybackState::Stopped);
    assert_eq!(run(&mut change, &[true, true]), (wanted.clone(), Ok(())));
    let mut change = player.set_pipeline_gst_state(BackendPlaybackState::Stopped);
    assert_eq!(run(&mut change, &[true, false]), (wanted.clone(), Err(StateChangeError)));
    let mut change = player.set_pipeline_gst_state(BackendPlaybackState::Stopped);
    assert_eq!(run(&mut change, &[false]), (wanted[..1].to_vec(), Err(StateChangeError)));
}

#[test]
fn loading_and_playing_ask_the_active_pipeline_alone() {
    let player = GstPlayer::new();
    let mut change = player.set_pipeline_gst_state(BackendPlaybackState::Loading);
    assert_eq!(
        run(&mut change, &[true]),
        (vec![request(Pipeline::Primary, PipelineState::Ready, true)], Ok(()))
    );
    let mut change = player.set_pipeline_gst_state(BackendPlaybackState::Playing);
    assert_eq!(
        run(&mut change, &[false]),
        (vec![request(Pipeline::Primary, PipelineState::Playing, true)], Err(StateChangeError))
    );
}

#[test]
fn only_a_stop_that_succeeded_is_announced_by_the_player() {
    let mut player = GstPlayer::new();
    player.state = BackendPlaybackState::Playing;
    assert_eq!(player.set_state(BackendPlaybackState::Paused, Ok(())), vec![]);
    assert_eq!(player.set_state(BackendPlaybackState::Stopped, Err(StateChangeError)), vec![]);
    assert_eq!(player.state(), BackendPlaybackState::Playing);
    assert_eq!(
        player.set_state(BackendPlaybackState::Stopped, Ok(())),
        vec![Action::Send(PlaybackAction::PlaybackState(BackendPlaybackState::Stopped))]
    );
    assert_eq!(player.state(), BackendPlaybackState::Stopped);
}

#[test]
fn uris_go_to_the_active_and_to_the_other_pipeline() {
    let player = GstPlayer::new();
    let now = player.set_uri("/a b".to_string());
    assert_eq!((now.pipeline, now.uri.as_str()), (Pipeline::Primary, "file:/a%20b"));
    let next = player.set_uri_next("/c".to_string());
    assert_eq!((next.pipeline, next.uri.as_str()), (Pipeline::Secondary, "file:/c"));
}

#[test]
fn the_crossfade_duration_is_held_between_zero_and_twelve() {
    let mut player = GstPlayer::new();
    for (given, held) in [(5.5, 5.5), (-1.0, 0.0), (12.0, 12.0), (12.000000000000002, 12.0), (f64::INFINITY, 12.0)] {
        player.set_crossfade_duration(of(given));
        assert_eq!(player.crossfade_duration(), of(held));
    }
    player.set_crossfade_duration(of(f64::NAN));
    assert!(player.crossfade_duration().is_nan());
}

#[test]
fn quiet_volumes_are_silence() {
    let player = GstPlayer::new();
    for (given, cubic) in [
        (0.5, 0.5),
        (1.5, 1.0),
        (-0.2, 0.0),
        (-0.0, 0.0),
        (0.05, 0.0),
        (0.05000000000000001, 0.05000000000000001),
    ] {
        assert_eq!(player.set_volume(of(given)), of(cubic));
    }
    assert!(player.set_volume(of(f64::NAN)).is_nan());
}

#[test]
fn a_linear_volume_goes_to_both_pipelines() {
    let mut player = GstPlayer::new();
    let both = vec![
        Action::SetVolume { pipeline: Pipeline::Primary, volume: of(0.125) },
        Action::SetVolume { pipeline: Pipeline::Secondary, volume: of(0.125) },
    ];
    assert_eq!(player.set_linear_volume(of(0.125)), both);
    assert_eq!(player.volume, of(0.125));
    assert_eq!(player.set_volume_internal(), both);
    assert_eq!(player.check_volume(of(0.125)), vec![]);
    assert_eq!(player.check_volume(of(1.0)), both);
    assert_eq!(
        GstPlayer::set_volume_for_pipeline(Pipeline::Secondary, of(7.0)),
        Action::SetVolume { pipeline: Pipeline::Secondary, volume: of(1.0) }
    );
    player.set_linear_volume(of(0.0));
    assert_eq!(player.check_volume(of(-0.0)), vec![]);
    player.set_linear_volume(of(f64::NAN));
    assert_eq!(player.check_volume(of(f64::NAN)).len(), 2);
}

#[test]
fn query_replies_are_times_or_nothing() {
    let time = QueryReply::Time(Some(61_999_999_999));
    assert_eq!(GstPlayer::pipeline_position_in_nsecs(time), Some(61_999_999_999));
    assert_eq!(GstPlayer::pipeline_position(time), Some(61));
    assert_eq!(GstPlayer::pipeline_duration(time), Some(61));
    for reply in [QueryReply::Unanswered, QueryReply::OtherFormat, QueryReply::Time(None)] {
        assert_eq!(GstPlayer::pipeline_position_in_nsecs(reply), None);
        assert_eq!(GstPlayer::pipeline_position(reply), None);
        assert_eq!(GstPlayer::pipeline_duration(reply), None);
    }
}

#[test]
fn the_duration_is_queried_until_it_is_known() {
    let mut player = GstPlayer::new();
    assert!(player.query_duration(QueryReply::Unanswered));
    assert_eq!(player.duration(), None);
    assert!(!player.query_duration(QueryReply::Time(Some(200_500_000_000))));
    assert_eq!(player.duration(), Some(200));
    assert!(player.query_duration(QueryReply::Time(None)));
    assert_eq!(player.duration(), None);
}

#[test]
fn an_error_stops_the_player() {
    let mut player = GstPlayer::new();
    for pipeline in [Pipeline::Primary, Pipeline::Secondary] {
        let reaction = player.handle_bus_message(BusMessage::Error, pipeline);
        assert!(reaction.keep);
        assert_eq!(
            reaction.actions,
            vec![Action::SetState(BackendPlaybackState::Stopped), Action::Send(PlaybackAction::Error)]
        );
    }
}

#[test]
fn the_end_of_a_stream_counts_on_the_active_pipeline() {
    let mut player = GstPlayer::new();
    let stop = vec![Action::SetState(BackendPlaybackState::Stopped), Action::Send(PlaybackAction::EOS)];
    assert_eq!(player.handle_bus_message(BusMessage::Eos, Pipeline::Primary).actions, stop);
    assert_eq!(player.handle_bus_message(BusMessage::Eos, Pipeline::Secondary).actions, vec![]);
    player.is_crossfading = true;
    assert_eq!(player.handle_bus_message(BusMessage::Eos, Pipeline::Primary).actions, vec![]);
    assert_eq!(player.handle_bus_message(BusMessage::Eos, Pipeline::Secondary).actions, vec![]);
}

#[test]
fn the_player_follows_its_active_pipeline() {
    let mut player = GstPlayer::new();
    let primary = MessageSource::Pipeline(Pipeline::Primary);
    for (current, state) in [
        (PipelineState::Ready, BackendPlaybackState::Loading),
        (PipelineState::Paused, BackendPlaybackState::Paused),
        (PipelineState::Null, BackendPlaybackState::Stopped),
    ] {
        let news = BusMessage::StateChanged { source: primary, current };
        let told = vec![Action::Send(PlaybackAction::PlaybackState(state))];
        assert_eq!(player.handle_bus_message(news, Pipeline::Primary).actions, told);
        assert_eq!(player.state(), state);
        assert_eq!(player.handle_bus_message(news, Pipeline::Primary).actions, vec![]);
    }
    let playing = BusMessage::StateChanged { source: primary, current: PipelineState::Playing };
    assert_eq!(
        player.handle_bus_message(playing, Pipeline::Primary).actions,
        vec![
            Action::Send(PlaybackAction::PlaybackState(BackendPlaybackState::Playing)),
            Action::CheckVolume
        ]
    );
    assert_eq!(player.handle_bus_message(playing, Pipeline::Primary).actions, vec![Action::CheckVolume]);
}

#[test]
fn other_sources_and_states_change_nothing() {
    let mut player = GstPlayer::new();
    let before = player;
    for source in [MessageSource::Pipeline(Pipeline::Secondary), MessageSource::Element] {
        let news = BusMessage::StateChanged { source, current: PipelineState::Playing };
        assert_eq!(player.handle_bus_message(news, Pipeline::Secondary).actions, vec![]);
    }
    let source = MessageSource::Pipeline(Pipeline::Primary);
    let pending = BusMessage::StateChanged { source, current: PipelineState::VoidPending };
    assert_eq!(player.handle_bus_message(pending, Pipeline::Primary).actions, vec![]);
    let reaction = player.handle_bus_message(BusMessage::Other, Pipeline::Primary);
    assert!(reaction.keep && reaction.actions.is_empty());
    assert_eq!(player, before);
}

#[test]
fn a_new_clock_wakes_the_player_every_second() {
    let mut player = GstPlayer::new();
    assert_eq!(
        player.handle_bus_message(BusMessage::NewClock(Some(77)), Pipeline::Primary).actions,
        vec![Action::StopClock, Action::StartClock { start: 77, interval: 1_000_000_000 }]
    );
    assert_eq!(
        player.handle_bus_message(BusMessage::NewClock(None), Pipeline::Primary).actions,
        vec![Action::StopClock]
    );
    assert_eq!(GstPlayer::clock_tick(Some(2_999_999_999)), Some(PlaybackAction::Tick(2)));
    assert_eq!(GstPlayer::clock_tick(None), None);
}

#[test]
fn a_new_stream_has_its_duration_polled() {
    let mut player = GstPlayer::new();
    assert_eq!(
        player.handle_bus_message(BusMessage::StreamStart, Pipeline::Secondary).actions,
        vec![Action::PollDuration { interval_ms: 1 }]
    );
}

#[test]
fn seeking_gives_nanoseconds() {
    let player = GstPlayer::new();
    let seek = player.seek(95);
    assert_eq!((seek.pipeline, seek.position), (Pipeline::Primary, 95_000_000_000));
    assert!(seek.flush && seek.key_unit);
    assert_eq!(player.seek(18_446_744_073).position, 18_446_744_073_000_000_000);
    assert_eq!(GstPlayer::pipeline_position(QueryReply::Time(Some(seek.position))), Some(95));
}

#[test]
fn pipelines_are_each_other_s_other() {
    assert_eq!(Pipeline::Primary.other(), Pipeline::Secondary);
    assert_eq!(Pipeline::Secondary.other(), Pipeline::Primary);
}

#[test]
fn an_error_during_playback_is_heard_as_stopped_and_then_as_an_error() {
    for (answers, stopped) in [(vec![true, true], true), (vec![true, false], false), (vec![false], false)] {
        let mut player = GstPlayer::new();
        player.state = BackendPlaybackState::Playing;
        let mut heard = Vec::new();
        for action in player.handle_bus_message(BusMessage::Error, Pipeline::Primary).actions {
            match action {
                Action::SetState(state) => {
                    let mut change = player.set_pipeline_gst_state(state);
                    let (_, result) = run(&mut change, &answers);
                    for told in player.set_state(state, result) {
                        heard.push(told);
                    }
                }
                other => heard.push(other),
            }
        }
        assert_eq!(heard.last(), Some(&Action::Send(PlaybackAction::Error)));
        assert_eq!(heard.len(), if stopped { 2 } else { 1 });
        assert_eq!(player.state() == BackendPlaybackState::Stopped, stopped);
    }
}
