use gst_backend::action::{
    Action, BackendPlaybackState, BusMessage, Pipeline, PipelineState, PlaybackAction, QueryReply,
};
use gst_backend::crossfade::{CrossfadeStep, Fade};
use gst_backend::double::Double;
use gst_backend::player::GstPlayer;
use gst_backend::transition::StateRequest;

fn of(x: f64) -> Double {
    Double::of_bits(x.to_bits())
}

fn volume(pipeline: Pipeline, x: f64) -> Action {
    Action::SetVolume { pipeline, volume: of(x) }
}

fn player(duration: f64, linear: f64) -> GstPlayer {
    let mut player = GstPlayer::new();
    player.set_crossfade_duration(of(duration));
    player.set_linear_volume(of(linear));
    player
}

fn playing() -> Action {
    Action::Send(PlaybackAction::PlaybackState(BackendPlaybackState::Playing))
}

fn started(player: &mut GstPlayer) -> Fade {
    assert!(player.start_crossfade("/next".to_string()).is_some());
    let begun = player.crossfade_started(true);
    assert_eq!(begun.actions, vec![playing()]);
    begun.fade.unwrap()
}

#[test]
fn starting_prepares_the_other_pipeline() {
    let mut player = player(3.0, 0.5);
    let steps = player.start_crossfade("/music/next one.ogg".to_string()).unwrap();
    assert_eq!(steps.len(), 3);
    match &steps[0] {
        CrossfadeStep::SetUri(change) => {
            assert_eq!(change.pipeline, Pipeline::Secondary);
            assert_eq!(change.uri, "file:/music/next%20one.ogg");
        }
        _ => panic!("the URI comes first"),
    }
    match &steps[1] {
        CrossfadeStep::Perform(action) => assert_eq!(*action, volume(Pipeline::Secondary, 0.0)),
        _ => panic!("silence comes second"),
    }
    match &steps[2] {
        CrossfadeStep::Request(request) => assert_eq!(
            *request,
            StateRequest {
                pipeline: Pipeline::Secondary,
                target: PipelineState::Playing,
                required: true,
            }
        ),
        _ => panic!("the request to play comes last"),
    }
    assert!(player.is_crossfading);
    assert_eq!(player.pipeline(), Pipeline::Primary);
}

#[test]
fn a_second_start_is_refused() {
    let mut player = player(3.0, 0.5);
    started(&mut player);
    let before = player;
    assert!(player.start_crossfade("/other".to_string()).is_none());
    assert_eq!(player, before);
}

#[test]
fn a_pipeline_that_does_not_play_ends_the_crossfade() {
    let mut player = player(3.0, 0.5);
    let before = player;
    player.start_crossfade("/next".to_string());
    let begun = player.crossfade_started(false);
    assert_eq!(begun.actions, vec![]);
    assert!(begun.fade.is_none());
    assert_eq!(player, before);
}

#[test]
fn the_other_pipeline_becomes_active_at_once() {
    let mut player = player(3.0, 0.5);
    let fade = started(&mut player);
    assert_eq!(player.pipeline(), Pipeline::Secondary);
    assert_eq!(player.state(), BackendPlaybackState::Playing);
    assert!(player.is_crossfading);
    assert_eq!((fade.outgoing, fade.incoming), (Pipeline::Primary, Pipeline::Secondary));
    assert_eq!(fade.steps, of(60.0));
    assert_eq!(fade.interval_ms, 50);
    assert_eq!(player.handle_bus_message(BusMessage::Eos, Pipeline::Secondary).actions, vec![]);
}

#[test]
fn a_crossfade_without_duration_ends_at_once() {
    for duration in [0.0, -0.0, f64::EPSILON] {
        let mut player = player(duration, 0.25);
        player.start_crossfade("/next".to_string());
        let begun = player.crossfade_started(true);
        assert!(begun.fade.is_none());
        assert_eq!(
            begun.actions,
            vec![
                playing(),
                volume(Pipeline::Secondary, 0.25),
                volume(Pipeline::Primary, 0.0),
                Action::ChangeState { pipeline: Pipeline::Primary, target: PipelineState::Null },
            ]
        );
        assert!(!player.is_crossfading);
        assert_eq!(player.pipeline(), Pipeline::Secondary);
    }
}

#[test]
fn a_fade_has_the_volumes_of_the_machine() {
    let targets = [0.0, 1.0, 0.125, 0.3, 1e-4, 0.7297];
    let mut duration = 0.0371;
    while duration < 13.0 {
        for &target in &targets {
            let mut player = player(duration, target);
            let mut fade = started(&mut player);
            let held: f64 = duration.clamp(0.0, 12.0);
            let steps = (held * 20.0).clamp(20.0, 200.0);
            assert_eq!(fade.steps, of(steps));
            assert_eq!(fade.interval_ms, (held * 1000.0 / steps).max(10.0) as u64);
            let mut step = 0.0;
            loop {
                step += 1.0;
                let progress: f64 = (step / steps).clamp(0.0, 1.0);
                let reaction = player.fade_tick(&mut fade);
                if progress >= 1.0 {
                    assert!(!reaction.keep);
                    assert!(!player.is_crossfading);
                    assert_eq!(
                        reaction.actions,
                        vec![
                            volume(Pipeline::Secondary, target),
                            volume(Pipeline::Primary, 0.0),
                            Action::ChangeState {
                                pipeline: Pipeline::Primary,
                                target: PipelineState::Null
                            },
                        ]
                    );
                    break;
                }
                assert!(reaction.keep);
                assert!(player.is_crossfading);
                let falling: f64 = target * (1.0 - progress);
                let rising: f64 = target * progress;
                assert_eq!(
                    reaction.actions,
                    vec![
                        volume(Pipeline::Primary, falling.clamp(0.0, 1.0)),
                        volume(Pipeline::Secondary, rising.clamp(0.0, 1.0)),
                    ]
                );
            }
            assert_eq!(fade.step, steps.ceil() as u64);
            assert!(fade.step >= 20 && fade.step <= 200);
        }
        duration += 0.1973;
    }
}

#[test]
fn volumes_rise_and_fall_steadily() {
    let mut player = player(2.345, 0.9);
    let mut fade = started(&mut player);
    let mut last = (0.9, 0.0);
    loop {
        let reaction = player.fade_tick(&mut fade);
        if !reaction.keep {
            break;
        }
        match (reaction.actions[0], reaction.actions[1]) {
            (
                Action::SetVolume { pipeline: Pipeline::Primary, volume: falling },
                Action::SetVolume { pipeline: Pipeline::Secondary, volume: rising },
            ) => {
                let now = (f64::from_bits(falling.bits), f64::from_bits(rising.bits));
                assert!(now.0 <= last.0 && now.1 >= last.1 && now.1 <= 0.9 && now.0 >= 0.0);
                last = now;
            }
            _ => panic!("not two volumes"),
        }
    }
    assert_eq!(fade.step, 47);
}

#[test]
fn intervals_are_between_ten_and_sixty_milliseconds() {
    for (duration, interval) in [(0.01, 10), (0.2, 10), (0.5, 25), (1.0, 50), (7.0, 50), (10.0, 50), (12.0, 60)] {
        let mut player = player(duration, 0.5);
        assert_eq!(started(&mut player).interval_ms, interval);
    }
}

#[test]
fn a_duration_that_is_no_number_never_completes() {
    let mut player = player(f64::NAN, 0.5);
    let mut fade = started(&mut player);
    assert!(fade.steps.is_nan());
    assert_eq!(fade.interval_ms, 10);
    for _ in 0..500 {
        assert!(player.fade_tick(&mut fade).keep);
    }
    assert!(player.is_crossfading);
}

#[test]
fn two_crossfades_return_to_the_first_pipeline() {
    let mut player = player(1.0, 0.5);
    for pipeline in [Pipeline::Secondary, Pipeline::Primary] {
        let mut fade = started(&mut player);
        assert_eq!(player.pipeline(), pipeline);
        while player.fade_tick(&mut fade).keep {}
    }
}

#[test]
fn steps_stop_counting_where_doubles_do() {
    let mut player = player(f64::NAN, 0.5);
    let mut fade = started(&mut player);
    fade.step = 0x20_0000_0000_0000 - 1;
    player.fade_tick(&mut fade);
    player.fade_tick(&mut fade);
    assert_eq!(fade.step, 0x20_0000_0000_0000);
}

#[test]
fn a_crossfade_starts_near_the_end_of_the_track() {
    let player = player(3.0, 0.5);
    let at = |seconds: u64| QueryReply::Time(Some(seconds * 1_000_000_000 + 999_999_999));
    let end = at(200);
    assert!(!player.should_start_crossfade(end, at(196)));
    assert!(player.should_start_crossfade(end, at(197)));
    assert!(player.should_start_crossfade(end, at(199)));
    assert!(!player.should_start_crossfade(end, at(200)));
    assert!(!player.should_start_crossfade(end, at(201)));
    assert!(!player.should_start_crossfade(QueryReply::Unanswered, at(199)));
    assert!(!player.should_start_crossfade(end, QueryReply::Time(None)));
    assert!(!player.should_start_crossfade(end, QueryReply::OtherFormat));
}

#[test]
fn the_remaining_time_is_held_against_the_exact_duration() {
    let end = QueryReply::Time(Some(10_000_000_000));
    let now = QueryReply::Time(Some(7_000_000_000));
    assert!(player(3.0, 0.5).should_start_crossfade(end, now));
    assert!(!player(2.9999999999999996, 0.5).should_start_crossfade(end, now));
    assert!(!player(f64::NAN, 0.5).should_start_crossfade(end, now));
    assert!(!player(0.0, 0.5).should_start_crossfade(end, now));
    let mut busy = player(12.0, 0.5);
    assert!(busy.should_start_crossfade(end, now));
    busy.start_crossfade("/next".to_string());
    assert!(!busy.should_start_crossfade(end, now));
}

fn time_taken(duration: f64) -> u64 {
    let mut player = player(duration, 0.5);
    let mut fade = started(&mut player);
    let mut ticks = 1u64;
    while player.fade_tick(&mut fade).keep {
        ticks += 1;
    }
    ticks * fade.interval_ms
}

#[test]
fn a_crossfade_takes_about_its_duration() {
    let mut duration = 0.2;
    while duration <= 12.0 {
        let taken = time_taken(duration) as f64;
        assert!(taken < duration * 1000.0 + 50.0, "{} took {}", duration, taken);
        assert!(taken > duration * 1000.0 - 200.0, "{} took {}", duration, taken);
        duration += 0.00731;
    }
    assert_eq!(time_taken(9.999809127486406), 9800);
    assert_eq!(time_taken(4.8500002738554935), 4900);
}

#[test]
fn a_crossfade_of_whole_seconds_takes_exactly_its_duration() {
    for seconds in 1..13u64 {
        assert_eq!(time_taken(seconds as f64), 1000 * seconds);
    }
}

#[test]
fn a_short_crossfade_takes_a_fifth_of_a_second() {
    for duration in [f64::EPSILON * 1.0000000000000002, 1e-9, 0.01, 0.1, 0.2, 0.21] {
        assert_eq!(time_taken(duration), 200);
    }
}

#[test]
fn a_fade_can_rise_above_one_only_to_one() {
    let mut player = player(1.0, 3.0);
    let mut fade = started(&mut player);
    for _ in 0..10 {
        player.fade_tick(&mut fade);
    }
    let reaction = player.fade_tick(&mut fade);
    assert_eq!(
        reaction.actions,
        vec![volume(Pipeline::Primary, 1.0), volume(Pipeline::Secondary, 1.0)]
    );
}

#[test]
fn the_end_of_a_crossfade_allows_the_next() {
    let mut player = player(0.0, 0.5);
    assert!(player.start_crossfade("/a".to_string()).is_some());
    player.crossfade_started(true);
    assert!(player.start_crossfade("/b".to_string()).is_some());
}

#[test]
fn the_outgoing_pipeline_is_left_alone_until_the_first_tick() {
    for first in [Pipeline::Primary, Pipeline::Secondary] {
        let mut player = player(3.0, 0.5);
        player.active_pipeline = first;
        player.query_duration(QueryReply::Time(Some(200_000_000_000)));
        let before = player;
        for step in player.start_crossfade("/next".to_string()).unwrap() {
            let pipeline = match step {
                CrossfadeStep::SetUri(change) => change.pipeline,
                CrossfadeStep::Perform(Action::SetVolume { pipeline, .. }) => pipeline,
                CrossfadeStep::Perform(_) => panic!("only the volume is set"),
                CrossfadeStep::Request(request) => request.pipeline,
            };
            assert_eq!(pipeline, first.other());
        }
        let begun = player.crossfade_started(true);
        assert_eq!(begun.actions, vec![playing()]);
        assert_eq!(begun.fade.unwrap().outgoing, first);
        assert_eq!(player.volume, before.volume);
        assert_eq!(player.crossfade_duration(), before.crossfade_duration());
        assert_eq!(player.duration(), Some(200));
    }
}
