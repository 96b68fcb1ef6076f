//! What a crossfade does to the two pipelines, from its start over its ticks to its end.
use crate::action::{Action, BackendPlaybackState, Pipeline, PipelineState, PlaybackAction};
use crate::crossfade::{
    fade_interval, fade_steps, starts_crossfade, CrossfadeStep, Fade, EPSILON_BITS, FEWEST_STEPS_BITS,
    LAST_STEP, SHORTEST_INTERVAL_BITS, THOUSAND_BITS,
};
use crate::double::{law_order_le, law_order_lt, lemma_grid_order, one, Double, INFINITY_BITS};
use crate::fade_laws::{
    law_fade_completes, law_fade_interval, law_fade_is_monotone, law_fade_steps, lemma_duration_product,
    lemma_interval, lemma_product_at_whole, spread_of,
};
use crate::laws::law_bit_patterns;
use crate::number_laws::{closest, law_complement, law_product, law_quotient, law_whole_numbers};
use crate::operation_laws::held_to_one;
use crate::player::GstPlayer;
use crate::rounding::{lemma_one, lemma_whole_exact};
use crate::transition::StateRequest;
use crate::uri::file_uri_of;
use vstd::arithmetic::power2::*;
use vstd::prelude::*;

verus! {

broadcast use {law_order_le, law_order_lt};

/// Whether a fade has between 20 and 200 steps, and has taken no more than can be counted.
pub open spec fn countable(fade: Fade) -> bool {
    &&& !fade.steps.nan()
    &&& 20 * one() <= fade.steps.units() <= 200 * one()
    &&& fade.step <= 0x20_0000_0000_0000
}

/// Whether `volume` is the product of `target` and `part`, rounded to the closest double
/// and held between zero and one.
pub open spec fn is_part(volume: Double, target: Double, part: Double) -> bool {
    exists|product: Double| #![trigger held_to_one(volume, product)]
        closest(product, target.units() * part.units(), one()) && held_to_one(volume, product)
}

/// Whether a fade is over does not depend on its pipelines.
proof fn lemma_over(fade: Fade)
    requires
        countable(fade),
    ensures
        fade.complete() <==> fade.steps.units() <= fade.step * one(),
        !fade.progress().nan(),
        0 <= fade.progress().units() <= one(),
{
    law_bit_patterns();
    lemma_one();
    let same = Fade { outgoing: Pipeline::Primary, incoming: Pipeline::Secondary, ..fade };
    assert(same.progress() == fade.progress());
    law_fade_completes(same);
    let step = Double::whole(fade.step as int);
    lemma_whole_exact(fade.step as int);
    law_quotient(step, fade.steps);
    assert(!step.over(fade.steps).nan());
}

/// The progress of a fade that is not over is the part of its steps that it has taken,
/// rounded to the closest double.
pub proof fn law_progress(fade: Fade)
    requires
        countable(fade),
        fade.step * one() < fade.steps.units(),
    ensures
        closest(fade.progress(), (fade.step * one()) * one(), fade.steps.units()),
        !fade.complete(),
{
    law_bit_patterns();
    lemma_one();
    lemma_over(fade);
    let step = Double::whole(fade.step as int);
    lemma_whole_exact(fade.step as int);
    lemma_grid_order(fade.steps.magnitude(), INFINITY_BITS as int);
    lemma_grid_order(INFINITY_BITS as int, fade.steps.magnitude());
    lemma_finite(fade.steps);
    law_quotient(step, fade.steps);
    let ratio = step.over(fade.steps);
    let p = fade.progress();
    assert(p.units() < one());
    assert(ratio.negative() == fade.steps.negative());
    lemma_grid_order(ratio.magnitude(), 0);
    assert(p == ratio);
}

/// A number up to 12000 is finite.
proof fn lemma_finite(x: Double)
    requires
        !x.nan(),
        -12000 * one() <= x.units() <= 12000 * one(),
    ensures
        !x.infinite(),
{
    lemma_whole_exact(12000);
    let limit = Double::whole(12000).magnitude();
    lemma_grid_order(limit, INFINITY_BITS as int);
    lemma_grid_order(INFINITY_BITS as int, limit);
    lemma_one();
    lemma_grid_order(x.magnitude(), limit);
    lemma_grid_order(limit, x.magnitude());
}

proof fn lemma_part(target: Double, part: Double)
    requires
        !target.nan(),
        !target.infinite(),
        !part.nan(),
        0 <= part.units() <= one(),
    ensures
        is_part(
            target.times(part).clamped(Double::of_bits(0), Double::of_bits(0x3FF0_0000_0000_0000)),
            target,
            part,
        ),
{
    law_bit_patterns();
    lemma_one();
    lemma_finite(part);
    law_product(target, part);
    let product = target.times(part);
    assert(held_to_one(
        product.clamped(Double::of_bits(0), Double::of_bits(0x3FF0_0000_0000_0000)),
        product,
    ));
}

/// While a fade is not over, a tick sets two volumes and does nothing else. The outgoing
/// pipeline, whichever it is, gets the part of the target volume that is still to pass, and
/// the incoming one the part that has passed. The part that has passed is the steps taken
/// over all steps, the other is one minus it, each rounded to the closest double, as are the
/// volumes.
pub proof fn law_tick(fade: Fade)
    requires
        countable(fade),
        fade.step * one() < fade.steps.units(),
        !fade.target.nan(),
        !fade.target.infinite(),
    ensures
        fade.actions().len() == 2,
        exists|passed: Double, left: Double|
            {
                &&& #[trigger] closest(passed, (fade.step * one()) * one(), fade.steps.units())
                &&& #[trigger] closest(left, one() - passed.units(), 1)
                &&& fade.actions()[0] matches Action::SetVolume { pipeline, volume } && pipeline
                    == fade.outgoing && is_part(volume, fade.target, left)
                &&& fade.actions()[1] matches Action::SetVolume { pipeline, volume } && pipeline
                    == fade.incoming && is_part(volume, fade.target, passed)
            },
{
    law_bit_patterns();
    lemma_one();
    lemma_over(fade);
    law_progress(fade);
    let passed = fade.progress();
    let left = passed.complement();
    law_complement(passed);
    lemma_left(passed);
    lemma_part(fade.target, passed);
    lemma_part(fade.target, left);
    assert(closest(passed, (fade.step * one()) * one(), fade.steps.units()) && closest(
        left,
        one() - passed.units(),
        1,
    ));
}

/// Whatever the target volume and the steps are, a tick of a fade that is not over sets the
/// outgoing pipeline and then the incoming one, and nothing else; to a volume that is not a
/// number if the target is none.
pub proof fn law_tick_reaches_both(fade: Fade)
    requires
        !fade.complete(),
    ensures
        fade.actions().len() == 2,
        fade.actions()[0] matches Action::SetVolume { pipeline, volume } && pipeline == fade.outgoing
            && (fade.target.nan() ==> volume.nan()),
        fade.actions()[1] matches Action::SetVolume { pipeline, volume } && pipeline == fade.incoming
            && (fade.target.nan() ==> volume.nan()),
{
    law_product(fade.target, fade.progress());
    law_product(fade.target, fade.progress().complement());
}

/// One minus a number between zero and one lies there too.
proof fn lemma_left(passed: Double)
    requires
        !passed.nan(),
        0 <= passed.units() <= one(),
    ensures
        !passed.complement().nan(),
        0 <= passed.complement().units() <= one(),
{
    law_bit_patterns();
    law_complement(passed);
    let left = passed.complement();
    lemma_grid_order(left.magnitude(), 0);
    assert(left.units() >= 0);
    let edge = Double::of_bits(0x3FF0_0000_0000_0000);
    assert(edge.units() == one());
    assert(!edge.nan());
    assert(left.units() * 1 == left.units() && edge.units() * 1 == edge.units());
}

/// The end of a fade, whichever its pipelines are: the incoming one gets the target volume,
/// held between zero and one, the outgoing one falls silent, and then it is shut down.
/// Nothing else is done.
pub open spec fn ends_fade(
    actions: Seq<Action>,
    outgoing: Pipeline,
    incoming: Pipeline,
    target: Double,
) -> bool {
    &&& actions.len() == 3
    &&& actions[0] matches Action::SetVolume { pipeline, volume } && pipeline == incoming
        && held_to_one(volume, target)
    &&& actions[1] == Action::SetVolume { pipeline: outgoing, volume: Double::of_bits(0) }
    &&& actions[2] == Action::ChangeState { pipeline: outgoing, target: PipelineState::Null }
}

/// A fade is over at the tick at which it has taken all its steps; then the incoming pipeline
/// is at the target volume and the outgoing one is silent and shut down. A fade whose steps
/// are not a number is never over.
pub proof fn law_last_tick(fade: Fade)
    ensures
        countable(fade) && fade.step * one() >= fade.steps.units() ==> fade.complete() && ends_fade(
            fade.actions(),
            fade.outgoing,
            fade.incoming,
            fade.target,
        ),
        fade.steps.nan() ==> !fade.complete(),
{
    law_bit_patterns();
    lemma_one();
    if countable(fade) {
        lemma_over(fade);
    }
    if fade.steps.nan() {
        law_quotient(Double::whole(fade.step as int), fade.steps);
    }
}

/// A tick takes one step and changes nothing else of the fade, as long as steps can be
/// counted. The player's crossfade ends exactly if the fade is over then, and nothing else of
/// the player changes.
pub proof fn law_step(player: GstPlayer, fade: Fade)
    requires
        fade.step < 0x20_0000_0000_0000,
    ensures
        fade.stepped() == (Fade { step: (fade.step + 1) as u64, ..fade }),
        ({
            let after = player.with_tick(fade);
            &&& after == (GstPlayer { is_crossfading: after.is_crossfading, ..player })
            &&& countable(fade) ==> after.is_crossfading == (player.is_crossfading && (fade.step + 1)
                * one() < fade.steps.units())
            &&& fade.steps.nan() ==> after.is_crossfading == player.is_crossfading
        }),
{
    assert(LAST_STEP == 0x20_0000_0000_0000);
    if countable(fade) {
        lemma_over(fade.stepped());
    }
    law_last_tick(fade.stepped());
}

/// The volume that `actions` leave `pipeline` at, if they set it.
pub open spec fn volume_left(actions: Seq<Action>, pipeline: Pipeline) -> Option<Double>
    decreases actions.len(),
{
    if actions.len() == 0 {
        None
    } else {
        match actions.last() {
            Action::SetVolume { pipeline: p, volume } if p == pipeline => Some(volume),
            _ => volume_left(actions.drop_last(), pipeline),
        }
    }
}

proof fn lemma_volumes_left(fade: Fade)
    requires
        countable(fade),
        fade.outgoing != fade.incoming,
        !fade.target.nan(),
        !fade.target.infinite(),
        0 <= fade.target.units(),
    ensures
        volume_left(fade.actions(), fade.outgoing) == Some(
            if fade.complete() {
                Double::of_bits(0)
            } else {
                fade.outgoing_volume()
            },
        ),
        volume_left(fade.actions(), fade.incoming) == Some(
            if fade.complete() {
                fade.target.clamped(Double::of_bits(0), Double::of_bits(0x3FF0_0000_0000_0000))
            } else {
                fade.incoming_volume()
            },
        ),
{
    law_bit_patterns();
    reveal_with_fuel(volume_left, 4);
    let actions = fade.actions();
    let fewer = actions.drop_last();
    if fade.complete() {
        assert(fewer.last() == actions[1]);
        assert(fewer.drop_last().last() == actions[0]);
    } else {
        assert(fewer.last() == actions[0]);
    }
}

/// Over the ticks of a fade to a finite volume, the last one included, the outgoing pipeline
/// never gets louder and the incoming one never quieter, whichever they are. Both are set at
/// every tick, and neither above the target volume.
pub proof fn law_pipelines_cross(earlier: Fade, later: Fade)
    requires
        countable(earlier),
        countable(later),
        later == (Fade { step: later.step, ..earlier }),
        earlier.step <= later.step,
        earlier.outgoing != earlier.incoming,
        !earlier.target.nan(),
        !earlier.target.infinite(),
        0 <= earlier.target.units(),
    ensures
        ({
            let falling = volume_left(earlier.actions(), earlier.outgoing);
            let fallen = volume_left(later.actions(), earlier.outgoing);
            let rising = volume_left(earlier.actions(), earlier.incoming);
            let risen = volume_left(later.actions(), earlier.incoming);
            &&& falling is Some && fallen is Some && rising is Some && risen is Some
            &&& !falling->0.nan() && !fallen->0.nan() && !rising->0.nan() && !risen->0.nan()
            &&& 0 <= fallen->0.units() <= falling->0.units() <= earlier.target.units()
            &&& 0 <= rising->0.units() <= risen->0.units() <= earlier.target.units()
        }),
{
    law_bit_patterns();
    lemma_one();
    lemma_over(earlier);
    lemma_over(later);
    lemma_volumes_left(earlier);
    lemma_volumes_left(later);
    law_fade_is_monotone(earlier, later);
    law_fade_is_monotone(earlier, earlier);
    law_fade_is_monotone(later, later);
    let u = one();
    let i = earlier.step as int;
    let j = later.step as int;
    assert(i * u <= j * u) by (nonlinear_arith)
        requires
            i <= j,
            u > 0,
    ;
}

/// Beginning a fade. One that takes no time, 2^-52 seconds or less, is over at once. Any
/// other does nothing yet and keeps the player as it is. Its steps are twenty for a second or
/// less, 200 for ten seconds or more, and in between twenty times the duration, rounded to
/// the closest double. Its interval is the whole part of the milliseconds of the duration over
/// the steps, both rounded to the closest double, but no less than 10.
pub proof fn law_fade_begins(player: GstPlayer, outgoing: Pipeline, incoming: Pipeline)
    requires
        !player.crossfade_duration.nan() ==> 0 <= player.crossfade_duration.units() <= 12 * one(),
    ensures
        ({
            let d = player.crossfade_duration;
            let (after, actions, begun) = player.with_fade(outgoing, incoming);
            let fade = begun->0;
            if !d.nan() && d.units() * pow2(52) <= one() {
                &&& after == (GstPlayer { is_crossfading: false, ..player })
                &&& ends_fade(actions, outgoing, incoming, player.volume)
                &&& begun is None
            } else {
                &&& after == player
                &&& actions.len() == 0
                &&& begun is Some
                &&& fade.outgoing == outgoing
                &&& fade.incoming == incoming
                &&& fade.target == player.volume
                &&& fade.step == 0
                &&& d.nan() ==> fade.steps.nan() && fade.interval_ms == 10
                &&& !d.nan() ==> {
                    &&& countable(fade)
                    &&& d.units() <= one() ==> fade.steps.units() == 20 * one()
                    &&& d.units() >= 10 * one() ==> fade.steps.units() == 200 * one()
                    &&& one() <= d.units() <= 10 * one() ==> closest(
                        fade.steps,
                        d.units() * (20 * one()),
                        one(),
                    )
                    &&& exists|ms: Double, spread: Double|
                        {
                            &&& #[trigger] closest(ms, d.units() * (1000 * one()), one())
                            &&& #[trigger] closest(spread, ms.units() * one(), fade.steps.units())
                            &&& if spread.units() <= 10 * one() {
                                fade.interval_ms == 10
                            } else {
                                fade.interval_ms * one() <= spread.units() < (fade.interval_ms + 1)
                                    * one()
                            }
                        }
                }
            }
        }),
{
    law_bit_patterns();
    lemma_one();
    let u = one();
    let d = player.crossfade_duration;
    let twenty = Double::of_bits(FEWEST_STEPS_BITS);
    let thousand = Double::of_bits(THOUSAND_BITS);
    lemma_epsilon(d);
    law_product(d, twenty);
    law_product(d, thousand);
    if d.nan() {
        law_quotient(d.times(thousand), fade_steps(d));
        lemma_shortest_interval();
    } else {
        let steps = fade_steps(d);
        let ms = d.times(thousand);
        let spread = spread_of(d);
        lemma_finite(d);
        lemma_finite(twenty);
        lemma_finite(thousand);
        law_fade_steps(d);
        lemma_product_at_whole(d, twenty, 20, 20);
        lemma_product_at_whole(d, twenty, 20, 200);
        let gap = lemma_duration_product(d, twenty, 20);
        let other = lemma_duration_product(d, thousand, 1000);
        lemma_finite(steps);
        law_quotient(ms, steps);
        law_fade_interval(d);
        lemma_interval(d);
        assert(closest(ms, d.units() * (1000 * u), u) && closest(
            spread,
            ms.units() * u,
            steps.units(),
        ));
        let i = fade_interval(d);
        assert((i + 1) * u == i * u + u) by (nonlinear_arith);
    }
}

/// The shortest interval is 10 milliseconds.
proof fn lemma_shortest_interval()
    ensures
        Double::of_bits(SHORTEST_INTERVAL_BITS).truncated() == 10,
{
    law_bit_patterns();
    lemma_one();
    let u = one();
    let ten = Double::of_bits(SHORTEST_INTERVAL_BITS);
    law_whole_numbers(0, ten);
    let t = ten.truncated();
    assert(t == 10) by (nonlinear_arith)
        requires
            t * u <= 10 * u < (t + 1) * u,
            u > 0,
    ;
}

/// A duration takes no time if it is at most 2^-52.
proof fn lemma_epsilon(d: Double)
    ensures
        d.le(Double::of_bits(EPSILON_BITS)) <==> !d.nan() && d.units() * pow2(52) <= one(),
{
    law_bit_patterns();
    lemma_pow2_pos(52);
    let e = Double::of_bits(EPSILON_BITS).units();
    let f = pow2(52) as int;
    let x = d.units();
    assert(x <= e <==> x * f <= e * f) by (nonlinear_arith)
        requires
            f > 0,
    ;
}

/// Once the incoming pipeline plays, it is the active one at once, and the listeners are told
/// that the player plays before the fade begins. If it does not play, the crossfade is over
/// and nothing else changes.
pub proof fn law_handing_over(player: GstPlayer)
    ensures
        ({
            let outgoing = player.active_pipeline;
            let incoming = outgoing.other();
            let (begun, first, fade) = (GstPlayer {
                active_pipeline: incoming,
                state: BackendPlaybackState::Playing,
                ..player
            }).with_fade(outgoing, incoming);
            let (after, actions, same) = player.with_crossfade(true);
            &&& after == begun
            &&& same == fade
            &&& actions.len() == 1 + first.len()
            &&& actions[0] == Action::Send(
                PlaybackAction::PlaybackState(BackendPlaybackState::Playing),
            )
            &&& actions.skip(1) == first
            &&& after.active_pipeline == incoming && incoming != outgoing
            &&& after.state == BackendPlaybackState::Playing
        }),
        player.with_crossfade(false) == (
            GstPlayer { is_crossfading: false, ..player },
            Seq::<Action>::empty(),
            None::<Fade>,
        ),
{
    let (_, actions, _) = player.with_crossfade(true);
    let (_, first, _) = (GstPlayer {
        active_pipeline: player.active_pipeline.other(),
        state: BackendPlaybackState::Playing,
        ..player
    }).with_fade(player.active_pipeline, player.active_pipeline.other());
    assert(actions.skip(1) =~= first);
}

/// A crossfade starts with three steps, all on the incoming pipeline: it gets the URI of the
/// file, then it falls silent, and then it is asked to play.
pub proof fn law_start(steps: Seq<CrossfadeStep>, incoming: Pipeline, path: Seq<char>)
    requires
        starts_crossfade(steps, incoming, path),
    ensures
        steps.len() == 3,
        steps[0] matches CrossfadeStep::SetUri(change) && change.pipeline == incoming && change.uri@
            == file_uri_of(path),
        steps[1] == CrossfadeStep::Perform(
            Action::SetVolume { pipeline: incoming, volume: Double::of_bits(0) },
        ),
        steps[2] == CrossfadeStep::Request(
            StateRequest { pipeline: incoming, target: PipelineState::Playing, required: true },
        ),
{
}

} // verus!
