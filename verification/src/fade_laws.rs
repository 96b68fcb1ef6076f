//! What holds of a crossfade from its start to its end.
use crate::crossfade::{
    fade_interval, fade_steps, Fade, EPSILON_BITS, FEWEST_STEPS_BITS, LAST_STEP, MOST_STEPS_BITS,
    SHORTEST_INTERVAL_BITS, THOUSAND_BITS,
};
use crate::double::{
    grid, law_order_le, law_order_lt, lemma_grid_increases, lemma_grid_order, lemma_grid_step, one, place,
    Double, FRACTION_RANGE, INFINITY_BITS, ONE_BITS, UNIT_SHIFT,
};
use crate::laws::law_bit_patterns;
use crate::player::GstPlayer;
use crate::rounding::{
    lemma_nearest, lemma_nearest_exact, lemma_nearest_order, lemma_nearest_scaled, lemma_one,
    lemma_whole_exact, nearest, rounds_to, signed,
};
use vstd::arithmetic::power2::*;
use vstd::prelude::*;

verus! {

broadcast use {law_order_le, law_order_lt};

proof fn lemma_signed(mag: int)
    requires
        0 <= mag <= INFINITY_BITS,
    ensures
        !signed(false, mag).negative(),
        signed(false, mag).magnitude() == mag,
        signed(false, mag).units() == grid(mag),
        !signed(false, mag).nan(),
{
}

/// The steps taken over the steps of the fade, before they are held to one.
proof fn lemma_ratio(fade: Fade)
    requires
        fade.well_formed(),
    ensures
        ({
            let ratio = Double::whole(fade.step as int).over(fade.steps);
            let mag = nearest((fade.step * one()) * one(), fade.steps.units());
            &&& fade.steps.units() > 0
            &&& rounds_to((fade.step * one()) * one(), fade.steps.units(), mag)
            &&& ratio.units() == grid(mag)
            &&& !ratio.nan()
        }),
{
    law_bit_patterns();
    lemma_one();
    lemma_whole_exact(fade.step as int);
    lemma_grid_order(fade.steps.magnitude(), 0);
    let u = one();
    let k = fade.step as int;
    assert((k * u) * u >= 0) by (nonlinear_arith)
        requires
            k >= 0,
            u >= 0,
    ;
    lemma_grid_order(fade.steps.magnitude(), MOST_STEPS_BITS as int);
    lemma_nearest((k * u) * u, fade.steps.units());
    lemma_signed(nearest((k * u) * u, fade.steps.units()));
}

/// A whole number below the steps of the fade is at least one part in 2^53 below them.
proof fn lemma_gap(fade: Fade, k: int)
    requires
        fade.well_formed(),
        0 <= k,
        k * one() < fade.steps.units(),
    ensures
        (k * one()) * one() <= fade.steps.units() * grid(ONE_BITS - 1),
{
    let mag = fade.steps.magnitude();
    let g = fade.steps.units();
    let s = place(mag);
    let m = mag - s * FRACTION_RANGE;
    law_bit_patterns();
    lemma_one();
    lemma_grid_order(mag, FEWEST_STEPS_BITS as int);
    lemma_grid_order(mag, MOST_STEPS_BITS as int);
    lemma_grid_order(MOST_STEPS_BITS as int, mag);
    lemma_grid_order(mag, 0);
    assert(g == m * pow2(s as nat));
    assert(0 <= s <= 1029);
    assert(0 <= m < 2 * FRACTION_RANGE);
    let p = pow2(s as nat) as int;
    let q = pow2((UNIT_SHIFT - s) as nat) as int;
    lemma_pow2_pos(s as nat);
    lemma_pow2_adds((UNIT_SHIFT - s) as nat, s as nat);
    let u = one();
    assert(u == q * p);
    let d = m - k * q;
    assert(g - k * u == d * p) by (nonlinear_arith)
        requires
            g == m * p,
            u == q * p,
            d == m - k * q,
    ;
    assert(d >= 1) by (nonlinear_arith)
        requires
            d * p > 0,
            p > 0,
    ;
    lemma2_to64();
    lemma2_to64_rest();
    lemma_pow2_adds(53, 1021);
    let w = pow2(1021) as int;
    lemma_pow2_pos(1021);
    lemma_grid_step(ONE_BITS - 1);
    assert(place(ONE_BITS - 1) == 1021);
    let before = grid(ONE_BITS - 1);
    assert(before == u - w);
    let f = 0x20_0000_0000_0000int;
    assert(u == f * w);
    assert((g - k * u) * f >= g) by (nonlinear_arith)
        requires
            g - k * u == d * p,
            d >= 1,
            p > 0,
            g == m * p,
            m < f,
            f > 0,
    ;
    let rest = g - k * u;
    assert(rest * u >= g * w) by (nonlinear_arith)
        requires
            rest * f >= g,
            u == f * w,
            w > 0,
    ;
    assert((k * u) * u == g * u - rest * u) by (nonlinear_arith)
        requires
            rest == g - k * u,
    ;
    assert(g * before == g * u - g * w) by (nonlinear_arith)
        requires
            before == u - w,
    ;
}

/// A fade is complete at the first step that is not below its steps.
pub proof fn law_fade_completes(fade: Fade)
    requires
        fade.well_formed(),
    ensures
        fade.complete() <==> fade.steps.units() <= fade.step * one(),
{
    let u = one();
    let k = fade.step as int;
    let g = fade.steps.units();
    let mag = nearest((k * u) * u, g);
    law_bit_patterns();
    lemma_ratio(fade);
    lemma_one();
    lemma_grid_order(ONE_BITS as int, mag);
    lemma_grid_order(mag, ONE_BITS as int);
    lemma_grid_order(mag, 0);
    let top = ONE_BITS as int;
    assert((k * u) * u >= 0 && g * u >= 0 && k * u >= 0) by (nonlinear_arith)
        requires
            k >= 0,
            u >= 0,
            g >= 0,
    ;
    if g <= k * u {
        assert(g * u <= (k * u) * u) by (nonlinear_arith)
            requires
                g <= k * u,
                u >= 0,
        ;
        lemma_nearest_exact(g * u, g, top);
        lemma_nearest_order(g * u, (k * u) * u, g);
        assert(mag >= top);
    } else {
        lemma_gap(fade, k);
        lemma_nearest_exact(g * grid(top - 1), g, top - 1);
        lemma_nearest_order((k * u) * u, g * grid(top - 1), g);
        assert(mag < top);
    }
}

/// The steps of a crossfade are between 20 and 200, if its duration is a number.
pub proof fn law_fade_steps(duration: Double)
    requires
        !duration.nan(),
    ensures
        20 * one() <= fade_steps(duration).units() <= 200 * one(),
        !fade_steps(duration).nan(),
        Double::of_bits(FEWEST_STEPS_BITS).le(fade_steps(duration)),
        fade_steps(duration).le(Double::of_bits(MOST_STEPS_BITS)),
{
    law_bit_patterns();
    lemma_one();
    let twenty = Double::of_bits(FEWEST_STEPS_BITS);
    lemma_grid_order(duration.magnitude(), 0);
    lemma_grid_order(twenty.magnitude(), 0);
    let a = grid(duration.magnitude());
    let b = grid(twenty.magnitude());
    assert(a * b >= 0) by (nonlinear_arith)
        requires
            a >= 0,
            b >= 0,
    ;
    lemma_nearest(a * b, one());
    let product = duration.times(twenty);
    assert(!product.nan());
}

/// The state of the player and of a fade after a number of ticks of its timer.
pub open spec fn after_ticks(player: GstPlayer, fade: Fade, ticks: nat) -> (GstPlayer, Fade)
    decreases ticks,
{
    if ticks == 0 {
        (player, fade)
    } else {
        let (p, f) = after_ticks(player, fade, (ticks - 1) as nat);
        (p.with_tick(f), f.stepped())
    }
}

/// A crossfade lasts until its timer has ticked as often as it has steps, a fraction
/// counted as a step, and changes nothing else of the player.
pub proof fn law_fade_runs(player: GstPlayer, fade: Fade, ticks: nat)
    requires
        player.is_crossfading,
        fade.well_formed(),
        fade.step == 0,
        ticks <= LAST_STEP,
    ensures
        after_ticks(player, fade, ticks).1 == (Fade { step: ticks as u64, ..fade }),
        after_ticks(player, fade, ticks).0 == (GstPlayer {
            is_crossfading: ticks * one() < fade.steps.units(),
            ..player
        }),
    decreases ticks,
{
    law_bit_patterns();
    lemma_one();
    if ticks > 0 {
        law_fade_runs(player, fade, (ticks - 1) as nat);
        law_fade_completes(Fade { step: ticks as u64, ..fade });
        let u = one();
        let t = ticks as int;
        assert((t - 1) * u <= t * u) by (nonlinear_arith)
            requires
                u >= 0,
        ;
    } else {
        lemma_ratio(fade);
        assert(0 * one() == 0);
    }
}

/// The ticks after which a fade is complete: its steps, a fraction counted as a step.
pub open spec fn ticks_needed(fade: Fade) -> int {
    (fade.steps.units() + one() - 1) / one()
}

proof fn lemma_ticks_needed(fade: Fade)
    requires
        fade.well_formed(),
    ensures
        (ticks_needed(fade) - 1) * one() < fade.steps.units() <= ticks_needed(fade) * one(),
        20 <= ticks_needed(fade) <= 200,
{
    law_bit_patterns();
    lemma_one();
    let u = one();
    let s = fade.steps.units();
    let n = ticks_needed(fade);
    let r = (s + u - 1) % u;
    vstd::arithmetic::div_mod::lemma_fundamental_div_mod(s + u - 1, u);
    assert(s + u - 1 == n * u + r) by (nonlinear_arith)
        requires
            s + u - 1 == u * n + r,
    ;
    assert((n - 1) * u == n * u - u) by (nonlinear_arith);
    assert(n >= 20) by (nonlinear_arith)
        requires
            20 * u <= n * u,
            u > 0,
    ;
    assert(n <= 200) by (nonlinear_arith)
        requires
            n * u - u < 200 * u,
            u > 0,
    ;
}

/// A fade of a whole number of steps needs as many ticks.
proof fn lemma_whole_ticks(fade: Fade, n: int)
    requires
        fade.well_formed(),
        fade.steps.units() == n * one(),
    ensures
        ticks_needed(fade) == n,
{
    lemma_one();
    lemma_ticks_needed(fade);
    let u = one();
    let t = ticks_needed(fade);
    assert(t == n) by (nonlinear_arith)
        requires
            (t - 1) * u < n * u <= t * u,
            u > 0,
    ;
}

/// A crossfade that has started either is over at once, or is under way until its timer has
/// ticked as often as it needs, which is 20 to 200 times, unless its duration is not a
/// number. From its start on, the other pipeline is the active one.
pub proof fn law_crossfade_ends(player: GstPlayer, ticks: nat)
    requires
        player.is_crossfading,
        !player.crossfade_duration.nan(),
        ticks <= LAST_STEP,
    ensures
        ({
            let (started, _, fade) = player.with_crossfade(true);
            &&& started.active_pipeline == player.active_pipeline.other()
            &&& match fade {
                None => !started.is_crossfading && player.crossfade_duration.le(
                    Double::of_bits(EPSILON_BITS),
                ),
                Some(f) => {
                    let (end, _) = after_ticks(started, f, ticks);
                    &&& f.well_formed()
                    &&& 20 <= ticks_needed(f) <= 200
                    &&& end.is_crossfading <==> ticks < ticks_needed(f)
                    &&& end.active_pipeline == player.active_pipeline.other()
                },
            }
        }),
{
    law_bit_patterns();
    lemma_one();
    law_fade_steps(player.crossfade_duration);
    let (started, _, fade) = player.with_crossfade(true);
    if let Some(f) = fade {
        assert(f.well_formed());
        law_fade_runs(started, f, ticks);
        lemma_ticks_needed(f);
        let u = one();
        let t = ticks as int;
        let n = ticks_needed(f);
        if t < n {
            assert(t * u <= (n - 1) * u) by (nonlinear_arith)
                requires
                    t <= n - 1,
                    u > 0,
            ;
        } else {
            assert(t * u >= n * u) by (nonlinear_arith)
                requires
                    t >= n,
                    u > 0,
            ;
        }
    }
}

/// The product of two numbers that are not below zero.
proof fn lemma_times(a: Double, b: Double)
    requires
        !a.nan(),
        !b.nan(),
        !a.infinite(),
        !b.infinite(),
        a.units() >= 0,
        b.units() >= 0,
    ensures
        !a.times(b).nan(),
        a.units() * b.units() >= 0,
        rounds_to(a.units() * b.units(), one(), nearest(a.units() * b.units(), one())),
        a.times(b).units() == grid(nearest(a.units() * b.units(), one())),
{
    let x = a.units();
    let y = b.units();
    lemma_one();
    lemma_grid_order(a.magnitude(), 0);
    lemma_grid_order(b.magnitude(), 0);
    assert(grid(a.magnitude()) == x);
    assert(grid(b.magnitude()) == y);
    assert(x * y >= 0) by (nonlinear_arith)
        requires
            x >= 0,
            y >= 0,
    ;
    lemma_nearest(x * y, one());
    let mag = nearest(x * y, one());
    lemma_signed(mag);
    lemma_grid_order(0, 0);
    if a.negative() != b.negative() {
        assert(x * y == 0) by (nonlinear_arith)
            requires
                x == 0 || y == 0,
        ;
        lemma_nearest_exact(0, one(), 0);
        assert(mag == 0);
        assert(signed(true, 0).magnitude() == 0);
    }
}

/// The progress of a fade, and what is left of it, as parts of one.
proof fn lemma_progress(fade: Fade)
    requires
        fade.well_formed(),
    ensures
        !fade.progress().nan(),
        !fade.progress().infinite(),
        0 <= fade.progress().units() <= one(),
        ({
            let mag = nearest((fade.step * one()) * one(), fade.steps.units());
            fade.progress().units() == if grid(mag) > one() {
                one()
            } else {
                grid(mag)
            }
        }),
        !fade.progress().complement().nan(),
        !fade.progress().complement().infinite(),
        fade.progress().complement().units() == grid(nearest(one() - fade.progress().units(), 1)),
        0 <= fade.progress().complement().units() <= one(),
{
    law_bit_patterns();
    lemma_one();
    lemma_ratio(fade);
    let mag = nearest((fade.step * one()) * one(), fade.steps.units());
    lemma_grid_order(mag, 0);
    lemma_grid_order(mag, ONE_BITS as int);
    lemma_grid_order(ONE_BITS as int, INFINITY_BITS as int);
    let p = fade.progress();
    lemma_grid_order(p.magnitude(), INFINITY_BITS as int);
    lemma_grid_order(p.magnitude(), 0);
    assert(0 <= p.units() <= one());
    assert(!p.infinite());
    let left = one() - p.units();
    lemma_nearest(left, 1);
    lemma_nearest_exact(one(), 1, ONE_BITS as int);
    lemma_nearest_order(left, one(), 1);
    lemma_signed(nearest(left, 1));
    lemma_grid_order(nearest(left, 1), ONE_BITS as int);
    lemma_grid_order(nearest(left, 1), 0);
}

/// A part of the target volume, rounded and held to one.
proof fn lemma_part_of_target(target: Double, part: Double)
    requires
        !target.nan(),
        !target.infinite(),
        0 <= target.units(),
        !part.nan(),
        !part.infinite(),
        0 <= part.units() <= one(),
    ensures
        ({
            let volume = target.times(part).clamped(Double::of_bits(0), Double::of_bits(ONE_BITS));
            let exact = grid(nearest(target.units() * part.units(), one()));
            &&& !volume.nan()
            &&& volume.units() == if exact > one() {
                one()
            } else {
                exact
            }
            &&& 0 <= volume.units() <= target.units()
        }),
        0 <= target.units() * part.units(),
{
    law_bit_patterns();
    lemma_one();
    let t = target.units();
    let x = part.units();
    let u = one();
    lemma_grid_order(target.magnitude(), 0);
    lemma_times(target, part);
    let mag = nearest(t * x, u);
    assert(t * x <= u * t) by (nonlinear_arith)
        requires
            0 <= x <= u,
            t >= 0,
    ;
    assert(grid(target.magnitude()) == t);
    lemma_nearest_exact(u * t, u, target.magnitude());
    lemma_nearest_order(t * x, u * t, u);
    lemma_grid_order(mag, target.magnitude());
    lemma_grid_order(mag, 0);
}

/// As a fade to a finite volume goes on the incoming pipeline gets no quieter and the
/// outgoing one no louder, and neither is ever louder than that volume.
pub proof fn law_fade_is_monotone(earlier: Fade, later: Fade)
    requires
        earlier.well_formed(),
        later.well_formed(),
        later == (Fade { step: later.step, ..earlier }),
        earlier.step <= later.step,
        !earlier.target.nan(),
        !earlier.target.infinite(),
        0 <= earlier.target.units(),
    ensures
        Double::of_bits(0).le(earlier.incoming_volume()),
        earlier.incoming_volume().le(later.incoming_volume()),
        later.incoming_volume().le(earlier.target),
        Double::of_bits(0).le(later.outgoing_volume()),
        later.outgoing_volume().le(earlier.outgoing_volume()),
        earlier.outgoing_volume().le(earlier.target),
{
    law_bit_patterns();
    lemma_one();
    lemma_ratio(earlier);
    lemma_ratio(later);
    lemma_progress(earlier);
    lemma_progress(later);
    lemma_part_of_target(earlier.target, earlier.progress());
    lemma_part_of_target(later.target, later.progress());
    lemma_part_of_target(earlier.target, earlier.progress().complement());
    lemma_part_of_target(later.target, later.progress().complement());
    let u = one();
    let g = earlier.steps.units();
    let i = earlier.step as int;
    let j = later.step as int;
    assert(0 <= (i * u) * u <= (j * u) * u) by (nonlinear_arith)
        requires
            0 <= i <= j,
            u >= 0,
    ;
    lemma_nearest_order((i * u) * u, (j * u) * u, g);
    lemma_grid_order(nearest((i * u) * u, g), nearest((j * u) * u, g));
    let p = earlier.progress().units();
    let q = later.progress().units();
    assert(p <= q);
    lemma_nearest_order(u - q, u - p, 1);
    lemma_nearest(u - q, 1);
    lemma_nearest(u - p, 1);
    lemma_grid_order(nearest(u - q, 1), nearest(u - p, 1));
    let a = earlier.progress().complement().units();
    let b = later.progress().complement().units();
    assert(b <= a);
    let t = earlier.target.units();
    lemma_same_order(t, p, q);
    lemma_same_order(t, b, a);
}

/// Larger parts of one volume are no quieter.
proof fn lemma_same_order(target: int, low: int, high: int)
    requires
        0 <= target,
        0 <= low <= high,
    ensures
        grid(nearest(target * low, one())) <= grid(nearest(target * high, one())),
{
    lemma_one();
    assert(0 <= target * low <= target * high) by (nonlinear_arith)
        requires
            0 <= target,
            0 <= low <= high,
    ;
    lemma_nearest_order(target * low, target * high, one());
    lemma_nearest(target * low, one());
    lemma_nearest(target * high, one());
    lemma_grid_order(nearest(target * low, one()), nearest(target * high, one()));
}

/// The quotient of a number that is not below zero and one that is above.
proof fn lemma_over(a: Double, b: Double)
    requires
        !a.nan(),
        !b.nan(),
        !a.infinite(),
        !b.infinite(),
        a.units() >= 0,
        b.units() > 0,
    ensures
        !a.over(b).nan(),
        a.over(b).units() == grid(nearest(a.units() * one(), b.units())),
{
    let x = a.units();
    let u = one();
    lemma_one();
    lemma_grid_order(a.magnitude(), 0);
    lemma_grid_order(b.magnitude(), 0);
    assert(grid(a.magnitude()) == x);
    assert(grid(b.magnitude()) == b.units());
    assert(x * u >= 0) by (nonlinear_arith)
        requires
            x >= 0,
            u >= 0,
    ;
    lemma_nearest(x * u, b.units());
    let mag = nearest(x * u, b.units());
    lemma_signed(mag);
    lemma_grid_order(0, 0);
    if a.negative() {
        assert(x == 0);
        assert(0 * u == 0);
        assert(b.units() * 0 == 0);
        lemma_nearest_exact(0, b.units(), 0);
        assert(signed(true, 0).magnitude() == 0);
    }
}

/// A ratio and the double nearest to it differ by no more than half of the last place,
/// which is a small part of the double.
proof fn lemma_rounding_error(num: int, den: int)
    requires
        0 <= num,
        den > 0,
        num < den * grid(INFINITY_BITS - 1),
    ensures
        ({
            let mag = nearest(num, den);
            let gap = pow2(place(mag) as nat);
            &&& 0 <= mag < INFINITY_BITS
            &&& 2 * num <= den * (2 * grid(mag) + gap)
            &&& den * (2 * grid(mag) - gap) <= 2 * num
            &&& gap == 1 || gap * FRACTION_RANGE <= grid(mag)
            &&& gap > 0
        }),
{
    let mag = nearest(num, den);
    lemma_nearest(num, den);
    let top = INFINITY_BITS - 1;
    lemma_nearest_exact(den * grid(top), den, top);
    lemma_nearest_order(num, den * grid(top), den);
    lemma_grid_step(mag);
    lemma2_to64();
    let s = place(mag);
    let p = pow2(s as nat) as int;
    if mag > 0 {
        lemma_grid_step(mag - 1);
        let r = place(mag - 1);
        assert(r <= s);
        if r < s {
            lemma_pow2_strictly_increases(r as nat, s as nat);
        }
        let x = 2 * grid(mag) - p;
        let y = grid(mag - 1) + grid(mag);
        assert(den * x <= den * y) by (nonlinear_arith)
            requires
                den > 0,
                x <= y,
        ;
    } else {
        lemma_grid_order(0, 0);
        let x = 2 * grid(mag) - p;
        assert(den * x <= 0) by (nonlinear_arith)
            requires
                den > 0,
                x <= 0,
        ;
    }
    assert(grid(mag) + grid(mag + 1) == 2 * grid(mag) + p);
    if s > 0 {
        let m = mag - s * FRACTION_RANGE;
        let f = FRACTION_RANGE as int;
        assert(m >= f);
        assert(p * f <= m * p) by (nonlinear_arith)
            requires
                m >= f,
                p > 0,
        ;
    }
}

/// The rounding error of a product with one.
proof fn lemma_unit_rounding_error(num: int)
    requires
        0 <= num,
        num < grid(INFINITY_BITS - 1),
    ensures
        ({
            let mag = nearest(num * one(), one());
            let gap = pow2(place(mag) as nat);
            &&& 2 * num <= 2 * grid(mag) + gap
            &&& 2 * grid(mag) <= 2 * num + gap
            &&& gap == 1 || gap * FRACTION_RANGE <= grid(mag)
            &&& gap > 0
        }),
{
    lemma_one();
    lemma_nearest_scaled(num, 1, one());
    lemma_rounding_error(num, 1);
}

/// Whether `gap` bounds twice the distance between `x` and its rounded value `y`, and is
/// a small part of `y`.
pub open spec fn close(x: int, y: int, gap: int) -> bool {
    &&& 2 * x <= 2 * y + gap
    &&& 2 * y <= 2 * x + gap
    &&& gap == 1 || gap * FRACTION_RANGE <= y
    &&& gap > 0
}

/// The product of a crossfade duration and a whole number up to a thousand.
pub proof fn lemma_duration_product(duration: Double, factor: Double, n: int) -> (gap: int)
    requires
        !duration.nan(),
        0 <= duration.units() <= 12 * one(),
        1 <= n <= 1000,
        !factor.nan(),
        !factor.infinite(),
        factor.units() == n * one(),
    ensures
        !duration.times(factor).nan(),
        !duration.times(factor).infinite(),
        0 <= duration.times(factor).units() <= 12000 * one(),
        close(n * duration.units(), duration.times(factor).units(), gap),
{
    lemma_one();
    let u = one();
    let d = duration.units();
    let top = INFINITY_BITS - 1;
    let limit = Double::whole(12000).magnitude();
    lemma_whole_exact(12000);
    assert(limit < top) by {
        lemma_grid_order(limit, top);
        assert(place(top) == 2045);
        lemma2_to64();
        lemma_pow2_strictly_increases(UNIT_SHIFT as nat, 2045);
        let h = pow2(2045) as int;
        let m = top - 2045 * FRACTION_RANGE;
        assert(m * h >= 12001 * h) by (nonlinear_arith)
            requires
                m >= 12001,
                h > 0,
        ;
    }
    lemma_grid_order(limit, top);
    lemma_grid_order(duration.magnitude(), limit);
    lemma_times(duration, factor);
    let x = n * d;
    assert(d * (n * u) == x * u) by (nonlinear_arith)
        requires
            x == n * d,
    ;
    assert(0 <= x <= 12000 * u) by (nonlinear_arith)
        requires
            x == n * d,
            1 <= n <= 1000,
            0 <= d <= 12 * u,
    ;
    let mag = nearest(x * u, u);
    assert(0 <= x * u <= u * (12000 * u)) by (nonlinear_arith)
        requires
            0 <= x <= 12000 * u,
            u > 0,
    ;
    lemma_nearest_exact(u * (12000 * u), u, limit);
    lemma_nearest_order(x * u, u * (12000 * u), u);
    lemma_nearest(x * u, u);
    lemma_grid_order(mag, limit);
    lemma_grid_order(mag, 0);
    let product = duration.times(factor);
    lemma_grid_order(product.magnitude(), INFINITY_BITS as int);
    lemma_grid_order(limit, INFINITY_BITS as int);
    lemma_unit_rounding_error(x);
    pow2(place(mag) as nat) as int
}

/// The milliseconds of a crossfade are at most 60 times its steps.
proof fn lemma_spread_bound(duration: Double)
    requires
        !duration.nan(),
        0 <= duration.units() <= 12 * one(),
    ensures
        !duration.times(Double::of_bits(THOUSAND_BITS)).nan(),
        !duration.times(Double::of_bits(THOUSAND_BITS)).infinite(),
        0 <= duration.times(Double::of_bits(THOUSAND_BITS)).units(),
        duration.times(Double::of_bits(THOUSAND_BITS)).units() <= 60 * fade_steps(
            duration,
        ).units(),
{
    law_bit_patterns();
    lemma_one();
    law_fade_steps(duration);
    let u = one();
    let d = duration.units();
    let g = fade_steps(duration).units();
    let twenty = Double::of_bits(FEWEST_STEPS_BITS);
    let thousand = Double::of_bits(THOUSAND_BITS);
    let gap = lemma_duration_product(duration, twenty, 20);
    let other = lemma_duration_product(duration, thousand, 1000);
    let b = duration.times(thousand).units();
    if g < 200 * u {
        assert(10 * gap <= g);
        assert(400 * d <= 21 * g);
        if other != 1 {
            assert(10 * other <= b);
            assert(19 * b <= 20000 * d);
        }
    }
}

/// What `fade_interval` cuts down to whole milliseconds.
pub open spec fn spread_of(duration: Double) -> Double {
    duration.times(Double::of_bits(THOUSAND_BITS)).over(fade_steps(duration))
}

/// The milliseconds of a crossfade, spread over its steps and rounded, are at most 60.
pub proof fn lemma_spread_rounded(duration: Double)
    requires
        !duration.nan(),
        0 <= duration.units() <= 12 * one(),
    ensures
        ({
            let b = duration.times(Double::of_bits(THOUSAND_BITS)).units();
            let s = fade_steps(duration).units();
            &&& !spread_of(duration).nan()
            &&& spread_of(duration).units() == grid(nearest(b * one(), s))
            &&& 0 <= spread_of(duration).units() <= 60 * one()
            &&& 0 <= b * one() <= s * (60 * one())
        }),
{
    law_bit_patterns();
    lemma_one();
    law_fade_steps(duration);
    lemma_spread_bound(duration);
    let u = one();
    let product = duration.times(Double::of_bits(THOUSAND_BITS));
    let steps = fade_steps(duration);
    lemma_grid_order(steps.magnitude(), INFINITY_BITS as int);
    lemma_grid_order(MOST_STEPS_BITS as int, INFINITY_BITS as int);
    lemma_grid_order(steps.magnitude(), 0);
    lemma_over(product, steps);
    let b = product.units();
    let s = steps.units();
    let limit = Double::whole(60).magnitude();
    lemma_whole_exact(60);
    lemma_nearest_exact(s * (60 * u), s, limit);
    assert(0 <= b * u <= s * (60 * u)) by (nonlinear_arith)
        requires
            0 <= b <= 60 * s,
            u > 0,
    ;
    lemma_nearest_order(b * u, s * (60 * u), s);
    lemma_nearest(b * u, s);
    lemma_grid_order(nearest(b * u, s), limit);
    lemma_grid_order(nearest(b * u, s), 0);
}

/// The timer of a fade ticks no more often than every 10 milliseconds, and, if the
/// crossfade duration is a number within its bounds, at least every 60.
pub proof fn law_fade_interval(duration: Double)
    ensures
        10 <= fade_interval(duration),
        !duration.nan() && 0 <= duration.units() <= 12 * one() ==> fade_interval(duration) <= 60,
{
    law_bit_patterns();
    lemma_one();
    let u = one();
    let spread = spread_of(duration);
    let ten = Double::of_bits(SHORTEST_INTERVAL_BITS);
    assert(10 * u == u * 10);
    vstd::arithmetic::div_mod::lemma_div_multiples_vanish(10, u);
    if ten.lt(spread) {
        vstd::arithmetic::div_mod::lemma_div_is_ordered(10 * u, spread.units(), u);
    }
    if !duration.nan() && 0 <= duration.units() <= 12 * u {
        lemma_spread_rounded(duration);
        assert(60 * u == u * 60);
        vstd::arithmetic::div_mod::lemma_div_multiples_vanish(60, u);
        vstd::arithmetic::div_mod::lemma_div_is_ordered(spread.units(), 60 * u, u);
    }
}

/// One is a large number of units.
proof fn lemma_huge_one()
    ensures
        one() > 0x1000_0000_0000_0000,
{
    lemma2_to64();
    lemma2_to64_rest();
    lemma_pow2_strictly_increases(60, UNIT_SHIFT as nat);
}

/// The milliseconds of a crossfade spread over its steps.
proof fn lemma_spread(duration: Double) -> (gap: int)
    requires
        !duration.nan(),
        one() <= 5 * duration.units(),
        duration.units() <= 12 * one(),
    ensures
        ({
            let b = duration.times(Double::of_bits(THOUSAND_BITS)).units();
            let s = fade_steps(duration).units();
            let x = spread_of(duration).units();
            &&& !spread_of(duration).nan()
            &&& 0 <= x <= 60 * one()
            &&& s * (2 * x - gap) <= 2 * (b * one()) <= s * (2 * x + gap)
            &&& 0 < 1000000 * gap <= x
        }),
{
    law_bit_patterns();
    lemma_one();
    let u = one();
    let thousand = Double::of_bits(THOUSAND_BITS);
    let product = duration.times(thousand);
    let steps = fade_steps(duration);
    law_fade_steps(duration);
    lemma_spread_rounded(duration);
    let other = lemma_duration_product(duration, thousand, 1000);
    lemma_huge_one();
    let b = product.units();
    let s = steps.units();
    assert(b >= 100 * u);
    let mag = nearest(b * u, s);
    let top = INFINITY_BITS - 1;
    lemma_grid_increases(MOST_STEPS_BITS as int, top);
    let high = grid(top);
    assert(s * (60 * u) < s * high) by (nonlinear_arith)
        requires
            60 * u < high,
            s > 0,
    ;
    lemma_rounding_error(b * u, s);
    let gap = pow2(place(mag) as nat) as int;
    let x = grid(mag);
    if gap == 1 && x < 1000000 {
        assert(s * (2 * x + 1) < 2 * (b * u)) by (nonlinear_arith)
            requires
                0 <= x < 1000000,
                0 < s <= 200 * u,
                b >= 100 * u,
                u > 0x1000_0000_0000_0000,
        ;
    }
    gap
}

/// A ratio that is not beyond a whole number is not rounded beyond it.
proof fn lemma_rounds_at_whole(num: int, den: int, k: int)
    requires
        0 <= num,
        den > 0,
        0 <= k <= 2 * FRACTION_RANGE,
    ensures
        num <= den * (k * one()) ==> grid(nearest(num, den)) <= k * one(),
        num >= den * (k * one()) ==> grid(nearest(num, den)) >= k * one(),
{
    lemma_one();
    lemma_whole_exact(k);
    let u = one();
    let mag = Double::whole(k).magnitude();
    let edge = den * (k * u);
    assert(edge >= 0) by (nonlinear_arith)
        requires
            edge == den * (k * u),
            den > 0,
            k >= 0,
            u > 0,
    ;
    lemma_nearest_exact(edge, den, mag);
    lemma_nearest(num, den);
    if num <= edge {
        lemma_nearest_order(num, edge, den);
    }
    if num >= edge {
        lemma_nearest_order(edge, num, den);
    }
    lemma_grid_order(nearest(num, den), mag);
}

/// The product of a crossfade duration and a whole number lies on the same side of a whole
/// number as the exact product.
pub proof fn lemma_product_at_whole(duration: Double, factor: Double, n: int, k: int)
    requires
        !duration.nan(),
        0 <= duration.units() <= 12 * one(),
        1 <= n <= 1000,
        !factor.nan(),
        !factor.infinite(),
        factor.units() == n * one(),
        0 <= k <= 2 * FRACTION_RANGE,
    ensures
        n * duration.units() <= k * one() ==> duration.times(factor).units() <= k * one(),
        n * duration.units() >= k * one() ==> duration.times(factor).units() >= k * one(),
{
    lemma_one();
    let u = one();
    let d = duration.units();
    let x = n * d;
    let gap = lemma_duration_product(duration, factor, n);
    lemma_grid_order(duration.magnitude(), INFINITY_BITS as int);
    lemma_times(duration, factor);
    assert(d * (n * u) == x * u) by (nonlinear_arith)
        requires
            x == n * d,
    ;
    assert(x * u >= 0 && (x <= k * u ==> x * u <= u * (k * u)) && (x >= k * u ==> x * u >= u * (k * u)))
        by (nonlinear_arith)
        requires
            x == n * d,
            n >= 1,
            d >= 0,
            u > 0,
    ;
    lemma_rounds_at_whole(x * u, u, k);
}

/// The steps of a crossfade lie on the same side of a whole number as twenty times its
/// duration, between the bounds.
proof fn lemma_steps_at_whole(duration: Double, k: int)
    requires
        !duration.nan(),
        0 <= duration.units() <= 12 * one(),
        20 <= k <= 200,
    ensures
        20 * duration.units() <= k * one() ==> fade_steps(duration).units() <= k * one(),
        20 * duration.units() >= k * one() ==> fade_steps(duration).units() >= k * one(),
{
    law_bit_patterns();
    lemma_one();
    let twenty = Double::of_bits(FEWEST_STEPS_BITS);
    let gap = lemma_duration_product(duration, twenty, 20);
    lemma_product_at_whole(duration, twenty, 20, k);
    let u = one();
    assert(20 * u <= k * u <= 200 * u) by (nonlinear_arith)
        requires
            20 <= k <= 200,
            u > 0,
    ;
}

/// The milliseconds of a crossfade, spread over its steps, lie on the same side of a whole
/// number as before they are rounded.
proof fn lemma_spread_at_whole(duration: Double, k: int)
    requires
        !duration.nan(),
        0 <= duration.units() <= 12 * one(),
        0 <= k <= 2 * FRACTION_RANGE,
    ensures
        ({
            let b = duration.times(Double::of_bits(THOUSAND_BITS)).units();
            let s = fade_steps(duration).units();
            &&& b <= s * k ==> spread_of(duration).units() <= k * one()
            &&& b >= s * k ==> spread_of(duration).units() >= k * one()
        }),
{
    lemma_one();
    law_fade_steps(duration);
    lemma_spread_rounded(duration);
    let u = one();
    let b = duration.times(Double::of_bits(THOUSAND_BITS)).units();
    let s = fade_steps(duration).units();
    assert((b <= s * k ==> b * u <= s * (k * u)) && (b >= s * k ==> b * u >= s * (k * u)))
        by (nonlinear_arith)
        requires
            u > 0,
    ;
    lemma_rounds_at_whole(b * u, s, k);
}

/// The interval of a fade is the whole part of its spread, or 10.
pub proof fn lemma_interval(duration: Double)
    requires
        !duration.nan(),
        0 <= duration.units() <= 12 * one(),
    ensures
        ({
            let x = spread_of(duration).units();
            let i = fade_interval(duration);
            if x <= 10 * one() {
                i == 10
            } else {
                i * one() <= x < i * one() + one()
            }
        }),
{
    law_bit_patterns();
    lemma_one();
    lemma_spread_rounded(duration);
    let u = one();
    let x = spread_of(duration).units();
    assert(10 * u == u * 10);
    vstd::arithmetic::div_mod::lemma_div_multiples_vanish(10, u);
    if x > 10 * u {
        let i = fade_interval(duration);
        law_fade_interval(duration);
        vstd::arithmetic::div_mod::lemma_fundamental_div_mod(x, u);
        assert(i == x / u);
        let r = x % u;
        assert(x == i * u + r) by (nonlinear_arith)
            requires
                x == u * i + r,
        ;
    }
}

/// A crossfade of up to 210 milliseconds has 20 steps, 10 milliseconds apart.
proof fn lemma_short_fade(duration: Double)
    requires
        !duration.nan(),
        0 <= duration.units(),
        100 * duration.units() <= 21 * one(),
    ensures
        fade_steps(duration).units() == 20 * one(),
        fade_interval(duration) == 10,
{
    law_bit_patterns();
    lemma_one();
    law_fade_steps(duration);
    lemma_steps_at_whole(duration, 20);
    lemma_interval(duration);
    let u = one();
    let thousand = Double::of_bits(THOUSAND_BITS);
    let b = duration.times(thousand).units();
    let s = fade_steps(duration).units();
    let x = spread_of(duration).units();
    if 5 * duration.units() <= u {
        lemma_product_at_whole(duration, thousand, 1000, 200);
        lemma_spread_at_whole(duration, 10);
    } else {
        lemma_product_at_whole(duration, thousand, 1000, 210);
        let gap = lemma_spread(duration);
        assert(20 * (2 * x - gap) <= 2 * b) by (nonlinear_arith)
            requires
                s * (2 * x - gap) <= 2 * (b * u),
                s == 20 * u,
                u > 0,
        ;
        assert(x < 11 * u);
        if x > 10 * u {
            let i = fade_interval(duration);
            assert(i == 10) by (nonlinear_arith)
                requires
                    i * u <= x < i * u + u,
                    10 * u < x < 11 * u,
                    u > 0,
            ;
        }
    }
}

/// A crossfade of whole seconds has steps and an interval that are whole, and give its
/// duration.
proof fn lemma_whole_seconds_fade(duration: Double, k: int)
    requires
        !duration.nan(),
        1 <= k <= 12,
        duration.units() == k * one(),
    ensures
        ({
            let n = if k <= 10 {
                20 * k
            } else {
                200
            };
            &&& fade_steps(duration).units() == n * one()
            &&& n * fade_interval(duration) == 1000 * k
        }),
{
    law_bit_patterns();
    lemma_one();
    law_fade_steps(duration);
    let u = one();
    let n = if k <= 10 {
        20 * k
    } else {
        200
    };
    let q = if k <= 10 {
        50
    } else {
        5 * k
    };
    let d = duration.units();
    assert(u <= d <= 12 * u && (20 * k) * u == 20 * d && (1000 * k) * u == 1000 * d && (k > 10 ==> d
        >= 11 * u) && (k <= 10 ==> d <= 10 * u)) by (nonlinear_arith)
        requires
            d == k * u,
            1 <= k <= 12,
            u > 0,
    ;
    lemma_steps_at_whole(duration, n);
    lemma_product_at_whole(duration, Double::of_bits(THOUSAND_BITS), 1000, 1000 * k);
    let s = fade_steps(duration).units();
    assert(s * q == (1000 * k) * u) by (nonlinear_arith)
        requires
            s == n * u,
            n * q == 1000 * k,
    ;
    lemma_spread_at_whole(duration, q);
    lemma_interval(duration);
    let i = fade_interval(duration);
    assert(q * u >= 50 * u) by (nonlinear_arith)
        requires
            q >= 50,
            u > 0,
    ;
    assert(i == q) by (nonlinear_arith)
        requires
            i * u <= q * u < i * u + u,
            u > 0,
    ;
}

/// The time of a crossfade whose steps are held to their bounds.
proof fn lemma_bounded_fade(duration: Double, n: int)
    requires
        !duration.nan(),
        one() <= 5 * duration.units(),
        duration.units() <= 12 * one(),
        n == 20 || n == 200,
        fade_steps(duration).units() == n * one(),
        n == 200 ==> 9 * one() <= duration.units(),
    ensures
        1000 * duration.units() - 200 * one() < (n * fade_interval(duration)) * one(),
        (n * fade_interval(duration)) * one() < 1000 * duration.units() + 50 * one(),
{
    law_bit_patterns();
    lemma_one();
    law_fade_interval(duration);
    lemma_interval(duration);
    let u = one();
    let d = duration.units();
    let thousand = Double::of_bits(THOUSAND_BITS);
    let b = duration.times(thousand).units();
    let s = fade_steps(duration).units();
    let x = spread_of(duration).units();
    let i = fade_interval(duration);
    let other = lemma_duration_product(duration, thousand, 1000);
    let gap = lemma_spread(duration);
    lemma_huge_one();
    assert(n * (2 * x - gap) <= 2 * b <= n * (2 * x + gap)) by (nonlinear_arith)
        requires
            s * (2 * x - gap) <= 2 * (b * u) <= s * (2 * x + gap),
            s == n * u,
            u > 0,
    ;
    if x > 10 * u {
        let k = n * (i + 1);
        assert(s * (i + 1) == k * u) by (nonlinear_arith)
            requires
                s == n * u,
                k == n * (i + 1),
        ;
        assert((i + 1) * u == i * u + u) by (nonlinear_arith);
        lemma_spread_at_whole(duration, i + 1);
        lemma_product_at_whole(duration, thousand, 1000, k);
        assert(1000 * d < k * u);
        if n == 20 {
            assert(k * u == (n * i) * u + 20 * u) by (nonlinear_arith)
                requires
                    k == n * (i + 1),
                    n == 20,
            ;
            assert((n * i) * u == 20 * (i * u)) by (nonlinear_arith)
                requires
                    n == 20,
            ;
        } else {
            assert(k * u == (n * i) * u + 200 * u) by (nonlinear_arith)
                requires
                    k == n * (i + 1),
                    n == 200,
            ;
            assert((n * i) * u == 200 * (i * u)) by (nonlinear_arith)
                requires
                    n == 200,
            ;
        }
    }
}

/// The time of a crossfade whose steps lie between their bounds.
proof fn lemma_free_fade(duration: Double, n: int)
    requires
        !duration.nan(),
        one() <= 5 * duration.units(),
        duration.units() <= 12 * one(),
        20 * one() < fade_steps(duration).units() < 200 * one(),
        (n - 1) * one() < fade_steps(duration).units() <= n * one(),
    ensures
        1000 * duration.units() - 200 * one() < (n * fade_interval(duration)) * one(),
        (n * fade_interval(duration)) * one() < 1000 * duration.units() + 50 * one(),
{
    law_bit_patterns();
    lemma_one();
    lemma_huge_one();
    lemma_interval(duration);
    let u = one();
    let d = duration.units();
    let twenty = Double::of_bits(FEWEST_STEPS_BITS);
    let thousand = Double::of_bits(THOUSAND_BITS);
    let ga = lemma_duration_product(duration, twenty, 20);
    let gb = lemma_duration_product(duration, thousand, 1000);
    let gx = lemma_spread(duration);
    let b = duration.times(thousand).units();
    let s = fade_steps(duration).units();
    let x = spread_of(duration).units();
    let i = fade_interval(duration);
    assert(s == duration.times(twenty).units());
    assert(1000000 * ga <= s);
    assert(1000000 * gb <= b);
    assert(100 * b <= 5001 * s && 4999 * s <= 100 * b);
    assert(2 * x - gx < 101 * u && 99 * u < 2 * x + gx) by (nonlinear_arith)
        requires
            s * (2 * x - gx) <= 2 * (b * u) <= s * (2 * x + gx),
            100 * b <= 5001 * s,
            4999 * s <= 100 * b,
            s > 0,
            u > 0,
    ;
    assert(49 <= i <= 50) by (nonlinear_arith)
        requires
            i * u <= x < i * u + u,
            49 * u <= x < 51 * u,
            u > 0,
    ;
    assert(21 <= n <= 200) by (nonlinear_arith)
        requires
            (n - 1) * u < s <= n * u,
            20 * u < s < 200 * u,
            u > 0,
    ;
    lemma_steps_at_whole(duration, n - 1);
    lemma_steps_at_whole(duration, n);
    lemma_steps_at_whole(duration, 200);
    let m = n * u;
    let t = (n * i) * u;
    assert((n - 1) * u == m - u) by (nonlinear_arith)
        requires
            m == n * u,
    ;
    assert(20 * d > m - u);
    assert(49 * m <= t <= 50 * m) by (nonlinear_arith)
        requires
            m == n * u,
            t == (n * i) * u,
            49 <= i <= 50,
            n > 0,
            u > 0,
    ;
    assert(m <= 200 * u && (n <= 199 ==> m <= 199 * u)) by (nonlinear_arith)
        requires
            m == n * u,
            n <= 200,
            u > 0,
    ;
    if 20 * d > m {
        assert(s == m);
        assert(n <= 199);
    }
}

/// A crossfade takes its duration, in whole steps. One of whole seconds takes exactly that
/// long, one of up to 210 milliseconds takes 200, and one of a fifth of a second or more ends
/// less than 200 milliseconds early and less than 50 late.
pub proof fn law_fade_takes_its_duration(player: GstPlayer)
    requires
        Double::of_bits(EPSILON_BITS).lt(player.crossfade_duration),
        player.crossfade_duration.units() <= 12 * one(),
    ensures
        ({
            let (_, _, fade) = player.with_crossfade(true);
            let taken = ticks_needed(fade->0) * fade->0.interval_ms;
            let d = player.crossfade_duration.units();
            &&& fade is Some
            &&& d % one() == 0 ==> taken * one() == 1000 * d
            &&& 100 * d <= 21 * one() ==> taken == 200
            &&& one() <= 5 * d ==> 1000 * d - 200 * one() < taken * one() < 1000 * d + 50 * one()
        }),
{
    law_bit_patterns();
    lemma_one();
    let u = one();
    let duration = player.crossfade_duration;
    let d = duration.units();
    let (_, _, started) = player.with_crossfade(true);
    let fade = started->0;
    law_fade_steps(duration);
    law_fade_interval(duration);
    lemma_ticks_needed(fade);
    let s = fade.steps.units();
    let n = ticks_needed(fade);
    assert(d > 0) by {
        let e = Double::of_bits(EPSILON_BITS).units();
        let f = pow2(52) as int;
        assert(e > 0) by (nonlinear_arith)
            requires
                e * f == u,
                f >= 0,
                u > 0,
        ;
    }
    if d % u == 0 {
        let k = d / u;
        vstd::arithmetic::div_mod::lemma_fundamental_div_mod(d, u);
        assert(d == k * u && 1 <= k <= 12) by (nonlinear_arith)
            requires
                d == u * k,
                0 < d <= 12 * u,
                u > 0,
        ;
        lemma_whole_seconds_fade(duration, k);
        lemma_whole_ticks(fade, if k <= 10 {
            20 * k
        } else {
            200
        });
        assert((1000 * k) * u == 1000 * d) by (nonlinear_arith)
            requires
                d == k * u,
        ;
    }
    if 100 * d <= 21 * u {
        lemma_short_fade(duration);
        lemma_whole_ticks(fade, 20);
    }
    if u <= 5 * d {
        if s == 20 * u {
            lemma_whole_ticks(fade, 20);
            lemma_bounded_fade(duration, 20);
        } else if s == 200 * u {
            lemma_whole_ticks(fade, 200);
            lemma_steps_at_whole(duration, 180);
            lemma_bounded_fade(duration, 200);
        } else {
            lemma_free_fade(duration, n);
        }
    }
}

} // verus!
