//! The simulation engine: blob agents and food in a bounded arena.
//!
//! Blobs perceive nearby colored objects within their field of view, steer
//! toward or away from them by color preference, eat food, fight each
//! other, accumulate hunger, starve, and respawn as food.  Each tick runs
//! a fixed pipeline over one collision snapshot: perceive, feed, fight,
//! integrate, and resolve deaths.
//!
//! All quantities are fixed-point integers (see [`crate::math`]): one
//! second of simulated time is [`crate::math::SCALE`] time units,
//! fractional rates are scaled by the same constant, and a blob's field of
//! view is stored as the cosine of its half-angle, scaled likewise (an
//! angle is at most the half-angle exactly when its cosine is at least
//! that threshold).

use vstd::prelude::*;
use crate::keyed_set::{Key, KeyedSet};
use crate::math::{
    Vec2,
    abs,
    tdiv,
    dir_wf,
    cos_at_least,
    normalize_dir,
    blend_spec,
    blend_dir,
    div_trunc,
    lemma_tdiv_bound,
};
use crate::physics::{self, Circle, CircleCollisions, CollisionMatrix, Layer, LayerMask, World};

verus! {

/// An RGBA color with 8-bit channels.
#[derive(Clone, Copy, PartialEq, Eq, Structural, Debug)]
pub struct Color {
    pub r: u8,
    pub g: u8,
    pub b: u8,
    pub a: u8,
}

/// The largest channel of a color.
pub open spec fn max_channel(c: Color) -> int {
    let r = c.r as int;
    let g = c.g as int;
    let b = c.b as int;
    if r >= g && r >= b {
        r
    } else if g >= b {
        g
    } else {
        b
    }
}

/// The smallest channel of a color.
pub open spec fn min_channel(c: Color) -> int {
    let r = c.r as int;
    let g = c.g as int;
    let b = c.b as int;
    if r <= g && r <= b {
        r
    } else if g <= b {
        g
    } else {
        b
    }
}

/// The hue of a color, in degrees scaled by `SCALE` (`0 <= h < 360 *
/// SCALE`), computed from the channels exactly as the usual RGB-to-HSV
/// conversion, with truncating divisions.
pub open spec fn hue_of(c: Color) -> int {
    let r = c.r as int;
    let g = c.g as int;
    let b = c.b as int;
    let mx = max_channel(c);
    let delta = mx - min_channel(c);
    if delta == 0 {
        0
    } else if mx == r {
        let h = tdiv(61440 * (g - b), delta);
        if h < 0 {
            h + 368640
        } else {
            h
        }
    } else if mx == g {
        tdiv(61440 * (b - r), delta) + 122880
    } else {
        tdiv(61440 * (r - g), delta) + 245760
    }
}

/// The saturation of a color, scaled by `SCALE`.
pub open spec fn sat_of(c: Color) -> int {
    let mx = max_channel(c);
    if mx == 0 {
        0
    } else {
        ((mx - min_channel(c)) * 1024) / mx
    }
}

/// The value (brightness) of a color, scaled by `SCALE`.
pub open spec fn val_of(c: Color) -> int {
    (max_channel(c) * 1024) / 255
}

/// How similar two colors are, in `[-SCALE, SCALE]`: `SCALE` for the same
/// color, negative for very different colors.  The score is the circular
/// hue closeness damped by the saturation and value differences.
pub open spec fn color_similarity_spec(a: Color, b: Color) -> int {
    let dh = abs(hue_of(a) - hue_of(b));
    let dh2 = if dh <= 184320 {
        dh
    } else {
        368640 - dh
    };
    let main = 1024 - (2 * dh2) / 180;
    let ds = abs(sat_of(a) - sat_of(b));
    let dv = abs(val_of(a) - val_of(b));
    tdiv(tdiv(main * (1024 - ds), 1024) * (1024 - dv), 1024)
}

/// The hue, saturation and value of every color are within their scales.
pub proof fn lemma_hsv_bounds(c: Color)
    ensures
        0 <= hue_of(c) < 368640,
        0 <= sat_of(c) <= 1024,
        0 <= val_of(c) <= 1024,
{
    let r = c.r as int;
    let g = c.g as int;
    let b = c.b as int;
    let mx = max_channel(c);
    let mn = min_channel(c);
    let delta = mx - mn;
    if delta != 0 {
        if mx == r {
            lemma_tdiv_bound(61440 * (g - b), delta, 61440);
        } else if mx == g {
            lemma_tdiv_bound(61440 * (b - r), delta, 61440);
        } else {
            lemma_tdiv_bound(61440 * (r - g), delta, 61440);
        }
    }
    if mx > 0 {
        vstd::arithmetic::div_mod::lemma_div_is_ordered((mx - mn) * 1024, mx * 1024, mx);
        vstd::arithmetic::div_mod::lemma_div_multiples_vanish(1024, mx);
        assert(mx * 1024 == 1024 * mx) by (nonlinear_arith);
        vstd::arithmetic::div_mod::lemma_div_pos_is_pos((mx - mn) * 1024, mx);
    }
    vstd::arithmetic::div_mod::lemma_div_is_ordered(mx * 1024, 255int * 1024, 255int);
    vstd::arithmetic::div_mod::lemma_div_pos_is_pos(mx * 1024, 255int);
}

/// The similarity of any two colors is within `[-SCALE, SCALE]`.
pub proof fn lemma_color_similarity_bounds(a: Color, b: Color)
    ensures
        -1024 <= color_similarity_spec(a, b) <= 1024,
{
    lemma_hsv_bounds(a);
    lemma_hsv_bounds(b);
    let dh = abs(hue_of(a) - hue_of(b));
    let dh2 = if dh <= 184320 {
        dh
    } else {
        368640 - dh
    };
    let main = 1024 - (2 * dh2) / 180;
    let ds = abs(sat_of(a) - sat_of(b));
    let dv = abs(val_of(a) - val_of(b));
    vstd::arithmetic::div_mod::lemma_div_is_ordered(2 * dh2, 368640int, 180int);
    vstd::arithmetic::div_mod::lemma_div_pos_is_pos(2 * dh2, 180int);
    assert(368640int / 180 == 2048);
    assert(-1048576 <= main * (1024 - ds) <= 1048576) by (nonlinear_arith)
        requires
            -1024 <= main <= 1024,
            0 <= 1024 - ds <= 1024,
    ;
    lemma_tdiv_bound(main * (1024 - ds), 1024, 1024);
    let m1 = tdiv(main * (1024 - ds), 1024);
    assert(-1048576 <= m1 * (1024 - dv) <= 1048576) by (nonlinear_arith)
        requires
            -1024 <= m1 <= 1024,
            0 <= 1024 - dv <= 1024,
    ;
    lemma_tdiv_bound(m1 * (1024 - dv), 1024, 1024);
}

/// Computes the hue, saturation and value of a color, each scaled by
/// `SCALE`.
fn color_to_hsv(c: Color) -> (r: (i64, u64, u64))
    ensures
        r.0 == hue_of(c),
        r.1 == sat_of(c),
        r.2 == val_of(c),
        0 <= r.0 < 368640,
        r.1 <= 1024,
        r.2 <= 1024,
{
    let red: i64 = c.r as i64;
    let green: i64 = c.g as i64;
    let blue: i64 = c.b as i64;
    let mx: i64 = if red >= green && red >= blue {
        red
    } else if green >= blue {
        green
    } else {
        blue
    };
    let mn: i64 = if red <= green && red <= blue {
        red
    } else if green <= blue {
        green
    } else {
        blue
    };
    let delta: i64 = mx - mn;
    let hue: i64 = if delta == 0 {
        0
    } else if mx == red {
        proof {
            lemma_tdiv_bound(61440 * (green - blue) as int, delta as int, 61440);
        }
        let h = div_trunc((61440 * (green - blue)) as i128, delta as i128) as i64;
        if h < 0 {
            h + 368640
        } else {
            h
        }
    } else if mx == green {
        proof {
            lemma_tdiv_bound(61440 * (blue - red) as int, delta as int, 61440);
        }
        let h = div_trunc((61440 * (blue - red)) as i128, delta as i128) as i64;
        h + 122880
    } else {
        proof {
            lemma_tdiv_bound(61440 * (red - green) as int, delta as int, 61440);
        }
        let h = div_trunc((61440 * (red - green)) as i128, delta as i128) as i64;
        h + 245760
    };
    let sat: u64 = if mx == 0 {
        0
    } else {
        proof {
            vstd::arithmetic::div_mod::lemma_div_is_ordered(
                (mx - mn) as int * 1024,
                mx as int * 1024,
                mx as int,
            );
            vstd::arithmetic::div_mod::lemma_div_multiples_vanish(1024, mx as int);
            assert(mx as int * 1024 == 1024 * mx as int) by (nonlinear_arith);
        }
        (mx - mn) as u64 * 1024 / mx as u64
    };
    proof {
        vstd::arithmetic::div_mod::lemma_div_is_ordered(mx as int * 1024, 255int * 1024, 255int);
    }
    let val: u64 = mx as u64 * 1024 / 255;
    (hue, sat, val)
}

/// Computes [`color_similarity_spec`]: `SCALE` for identical colors, down
/// to negative values for very different ones.
pub fn color_similarity(a: &Color, b: &Color) -> (r: i64)
    ensures
        r == color_similarity_spec(*a, *b),
        -1024 <= r <= 1024,
{
    let (ha, sa, va) = color_to_hsv(*a);
    let (hb, sb, vb) = color_to_hsv(*b);
    let dh: u64 = if ha >= hb {
        (ha - hb) as u64
    } else {
        (hb - ha) as u64
    };
    let dh2: u64 = if dh <= 184320 {
        dh
    } else {
        368640 - dh
    };
    proof {
        vstd::arithmetic::div_mod::lemma_div_is_ordered(2 * (dh2 as int), 368640int, 180int);
        assert(368640int / 180 == 2048);
    }
    let main: i64 = 1024 - ((2 * dh2) / 180) as i64;
    let ds: i64 = if sa >= sb {
        (sa - sb) as i64
    } else {
        (sb - sa) as i64
    };
    let dv: i64 = if va >= vb {
        (va - vb) as i64
    } else {
        (vb - va) as i64
    };
    proof {
        assert(-1048576 <= main * (1024 - ds) <= 1048576) by (nonlinear_arith)
            requires
                -1024 <= main <= 1024,
                0 <= 1024 - ds <= 1024,
        ;
        lemma_tdiv_bound(main as int * (1024 - ds as int), 1024, 1024);
    }
    let m1 = div_trunc((main * (1024 - ds)) as i128, 1024) as i64;
    proof {
        assert(-1048576 <= m1 * (1024 - dv) <= 1048576) by (nonlinear_arith)
            requires
                -1024 <= m1 <= 1024,
                0 <= 1024 - dv <= 1024,
        ;
        lemma_tdiv_bound(m1 as int * (1024 - dv as int), 1024, 1024);
    }
    let m2 = div_trunc((m1 * (1024 - dv)) as i128, 1024) as i64;
    m2
}

} // verus!

// Blobs: their attributes, metabolism, combat and steering.

verus! {

/// A simulation agent.
///
/// Locomotion state (`pos`, `direction`), perception (`pov` as the scaled
/// cosine of the half-angle, `sight_depth`), preference, metabolism and
/// combat attributes; `circle` and `sight_circle` are the keys of the two
/// circles the blob owns in the collision world, kept at the blob's
/// position at all times.
#[derive(Debug)]
pub struct Blob {
    pub name: Option<String>,
    pub alive_time: u64,
    pub speed: i32,
    pub rotation_speed: i32,
    pub radius: i32,
    pub color: Color,
    pub sight_depth: i32,
    pub pov: i32,
    pub favorite_color: Color,
    pub color_attraction: i32,
    pub color_repulsion: i32,
    pub pos: Vec2,
    pub direction: Vec2,
    pub circle: Key<Circle>,
    pub sight_circle: Key<Circle>,
    pub hunger: i64,
    pub max_hunger: i64,
    pub hunger_reduction: i32,
    pub hunger_division: i32,
    pub attack: i64,
    pub defence: i64,
}

impl Blob {
    /// The blob's position.
    pub open spec fn pos_spec(&self) -> Vec2 {
        self.pos
    }

    /// The blob's body radius.
    pub open spec fn radius_spec(&self) -> i32 {
        self.radius
    }

    /// The blob's sight radius.
    pub open spec fn sight_depth_spec(&self) -> i32 {
        self.sight_depth
    }

    /// The identifier of the blob's body circle.
    pub open spec fn circle_spec(&self) -> u64 {
        self.circle@
    }

    /// The identifier of the blob's sight circle.
    pub open spec fn sight_circle_spec(&self) -> u64 {
        self.sight_circle@
    }
}

/// The ranges every blob attribute stays within; they keep all of the
/// tick's fixed-point arithmetic within machine bounds.
pub open spec fn blob_bounds(b: Blob) -> bool {
    &&& 0 <= b.speed <= 1048576
    &&& 0 <= b.rotation_speed <= 1048576
    &&& 0 <= b.radius_spec() <= 1073741824
    &&& 0 <= b.sight_depth_spec() <= 1073741824
    &&& -1024 <= b.pov <= 1024
    &&& 0 <= b.color_attraction <= 1048576
    &&& 0 <= b.color_repulsion <= 1048576
    &&& 0 <= b.hunger
    &&& 1 <= b.max_hunger <= 1099511627776
    &&& 0 <= b.hunger_reduction <= 1048576
    &&& 0 <= b.hunger_division <= 1048576
    &&& 0 <= b.attack <= 1099511627776
    &&& 0 <= b.defence <= 1099511627776
    &&& (dir_wf(b.direction) || b.direction == (Vec2 { x: 0, y: 0 }))
}

/// The hunger left after one feeding:
/// `max((h - reduction * max_hunger / SCALE) / (1 + division / SCALE), 0)`,
/// written over the scaled integers.
pub open spec fn feed_spec(h: int, reduction: int, division: int, max_hunger: int) -> int {
    let num = h * 1024 - reduction * max_hunger;
    let q = tdiv(num, 1024 + division);
    if q >= 0 {
        q
    } else {
        0
    }
}

/// Law: feeding never increases hunger, and never drives it negative.
pub proof fn lemma_feed_never_increases(h: int, reduction: int, division: int, max_hunger: int)
    requires
        0 <= h,
        0 <= reduction,
        0 <= division,
        0 <= max_hunger,
    ensures
        0 <= feed_spec(h, reduction, division, max_hunger) <= h,
{
    let num = h * 1024 - reduction * max_hunger;
    let d = 1024 + division;
    assert(reduction * max_hunger >= 0) by (nonlinear_arith)
        requires
            reduction >= 0,
            max_hunger >= 0,
    ;
    if num >= 0 {
        vstd::arithmetic::div_mod::lemma_div_is_ordered(num, h * 1024, d);
        vstd::arithmetic::div_mod::lemma_div_is_ordered_by_denominator(h * 1024, 1024, d);
        vstd::arithmetic::div_mod::lemma_div_multiples_vanish(h, 1024);
        assert(h * 1024 == 1024 * h) by (nonlinear_arith);
        vstd::arithmetic::div_mod::lemma_div_pos_is_pos(num, d);
    }
}

/// Whether `attacker` defeats `defender`: the attack exceeds the defence
/// scaled down by how hungry the defender is
/// (`attack > defence * (1 - hunger / max_hunger)`, multiplied out).
pub open spec fn defeats_spec(
    attack: int,
    defence: int,
    def_hunger: int,
    def_max_hunger: int,
) -> bool {
    attack * def_max_hunger > defence * (def_max_hunger - def_hunger)
}

impl Blob {
    /// Applies the feeding formula to this blob's hunger.
    fn feed(&mut self)
        requires
            blob_bounds(*old(self)),
        ensures
            *final(self) == (Blob {
                hunger: final(self).hunger,
                ..*old(self)
            }),
            final(self).hunger == feed_spec(
                old(self).hunger as int,
                old(self).hunger_reduction as int,
                old(self).hunger_division as int,
                old(self).max_hunger as int,
            ),
            0 <= final(self).hunger <= old(self).hunger,
    {
        proof {
            assert(0 <= self.hunger_reduction as int * self.max_hunger as int <= 0x100000000000000000)
                by (nonlinear_arith)
                requires
                    0 <= self.hunger_reduction <= 1048576,
                    0 <= self.max_hunger <= 1099511627776,
            ;
            lemma_feed_never_increases(
                self.hunger as int,
                self.hunger_reduction as int,
                self.hunger_division as int,
                self.max_hunger as int,
            );
        }
        let num: i128 = self.hunger as i128 * 1024 - self.hunger_reduction as i128
            * self.max_hunger as i128;
        let q: i128 = div_trunc(num, 1024 + self.hunger_division as i128);
        self.hunger = if q >= 0 {
            q as i64
        } else {
            0
        };
    }

    /// Feeds this blob and removes the eaten food from the arena.  (The
    /// simulation's own tick uses [`Simulation::remove_food`] instead, so
    /// the food's circle is retired along with it.)
    pub fn eat(&mut self, foods: &mut KeyedSet<Food>, food: Key<Food>)
        requires
            blob_bounds(*old(self)),
            old(foods).wf(),
        ensures
            *final(self) == (Blob {
                hunger: final(self).hunger,
                ..*old(self)
            }),
            final(self).hunger == feed_spec(
                old(self).hunger as int,
                old(self).hunger_reduction as int,
                old(self).hunger_division as int,
                old(self).max_hunger as int,
            ),
            final(foods).wf(),
            final(foods)@ == old(foods)@.remove(food@),
            final(foods).next_id() == old(foods).next_id(),
    {
        self.feed();
        let removed = foods.remove(food);
        proof {
            if !old(foods)@.contains_key(food@) {
                assert(final(foods)@ =~= old(foods)@.remove(food@));
            }
        }
    }
}

/// Decides [`defeats_spec`] for an attacker and defender.
pub fn defeats(attacker: &Blob, defender: &Blob) -> (r: bool)
    requires
        blob_bounds(*attacker),
        blob_bounds(*defender),
        defender.hunger <= defender.max_hunger,
    ensures
        r == defeats_spec(
            attacker.attack as int,
            defender.defence as int,
            defender.hunger as int,
            defender.max_hunger as int,
        ),
{
    proof {
        assert(0 <= attacker.attack as int * defender.max_hunger as int <= 0x100000000000000000000
            && 0 <= defender.defence as int * (defender.max_hunger as int - defender.hunger as int)
            <= 0x100000000000000000000) by (nonlinear_arith)
            requires
                0 <= attacker.attack <= 1099511627776,
                0 <= defender.defence <= 1099511627776,
                0 <= defender.max_hunger <= 1099511627776,
                0 <= defender.max_hunger as int - defender.hunger as int
                    <= defender.max_hunger as int,
        ;
    }
    let lhs: i128 = attacker.attack as i128 * defender.max_hunger as i128;
    let rhs: i128 = defender.defence as i128 * (defender.max_hunger as i128
        - defender.hunger as i128);
    lhs > rhs
}

} // verus!

// Food, the circle-to-entity tagging, steering and integration.

verus! {

/// A passive food entity: a position and the key of its circle in the
/// collision world.
#[derive(Debug)]
pub struct Food {
    pub pos: Vec2,
    pub circle: Key<Circle>,
}

impl Food {
    /// The food's position.
    pub open spec fn pos_spec(&self) -> Vec2 {
        self.pos
    }

    /// The identifier of the food's circle.
    pub open spec fn circle_spec(&self) -> u64 {
        self.circle@
    }
}

/// The fixed radius of a food circle.
pub const FOOD_RADIUS: i32 = 5;

/// The fixed color of food.
pub fn food_color() -> (c: Color)
    ensures
        c == (Color { r: 0, g: 228, b: 48, a: 255 }),
{
    Color { r: 0, g: 228, b: 48, a: 255 }
}

/// What a circle in the collision world stands for: a blob's body, a
/// blob's sight disc, or a food item, each carrying the owning entity's
/// key.
#[derive(Clone, Copy, Debug)]
pub enum CircleObject {
    Blob(Key<Blob>),
    Food(Key<Food>),
    BlobSight(Key<Blob>),
}

/// One perceived object: its color and position, as handed to
/// [`Blob::prepare_step`].
#[derive(Clone, Copy, Debug)]
pub struct SeenObject {
    pub color: Color,
    pub pos: Vec2,
}

/// A blob's steering decision for one tick.
pub struct BlobStep {
    pub target_direction: Option<Vec2>,
}

impl BlobStep {
    /// The desired heading, if the perceived objects produced one.
    pub open spec fn target(&self) -> Option<Vec2> {
        self.target_direction
    }
}

/// The running steering accumulation over the perceived objects: the
/// weighted sum of the unit directions toward each object (weights are the
/// signed interest scores) and the sum of the weight magnitudes.
pub open spec fn steer_fold(fav: Color, att: int, rep: int, pos: Vec2, seen: Seq<SeenObject>) -> (
    int,
    int,
    int,
)
    decreases seen.len(),
{
    if seen.len() == 0 {
        (0, 0, 0)
    } else {
        let prev = steer_fold(fav, att, rep, pos, seen.drop_last());
        let o = seen.last();
        let s = color_similarity_spec(fav, o.color);
        let v = s * (if s > 0 {
            att
        } else {
            rep
        });
        let dx = o.pos.x - pos.x;
        let dy = o.pos.y - pos.y;
        if dx == 0 && dy == 0 {
            prev
        } else {
            (
                prev.0 + crate::math::normalize_x(dx, dy) * v,
                prev.1 + crate::math::normalize_y(dx, dy) * v,
                prev.2 + abs(v),
            )
        }
    }
}

/// The steering outcome: none when nothing contributed or the weighted sum
/// degenerates to the zero vector, otherwise the normalized average
/// direction.  The average is scaled up before the division, so truncation
/// loses a target only when the summed vector is smaller than a
/// `1 / DIR_ONE` fraction of the total weight.
pub open spec fn steer_target_spec(
    fav: Color,
    att: int,
    rep: int,
    pos: Vec2,
    seen: Seq<SeenObject>,
) -> Option<Vec2> {
    let sums = steer_fold(fav, att, rep, pos, seen);
    let sx = sums.0;
    let sy = sums.1;
    let c = sums.2;
    if c == 0 || (sx == 0 && sy == 0) {
        Option::None
    } else {
        let ax = tdiv(sx * 65536, c);
        let ay = tdiv(sy * 65536, c);
        if ax == 0 && ay == 0 {
            Option::None
        } else {
            Option::Some(
                Vec2 {
                    x: crate::math::normalize_x(ax, ay) as i32,
                    y: crate::math::normalize_y(ax, ay) as i32,
                },
            )
        }
    }
}

/// Each contribution is bounded, so the running sums stay within the
/// weight-magnitude sum scaled by a unit direction.
proof fn lemma_steer_fold_bounds(fav: Color, att: int, rep: int, pos: Vec2, seen: Seq<SeenObject>)
    requires
        0 <= att <= 1048576,
        0 <= rep <= 1048576,
    ensures
        ({
            let sums = steer_fold(fav, att, rep, pos, seen);
            &&& 0 <= sums.2 <= seen.len() * 0x40000000
            &&& -(sums.2 * 65536) <= sums.0 <= sums.2 * 65536
            &&& -(sums.2 * 65536) <= sums.1 <= sums.2 * 65536
        }),
    decreases seen.len(),
{
    if seen.len() > 0 {
        lemma_steer_fold_bounds(fav, att, rep, pos, seen.drop_last());
        let prev = steer_fold(fav, att, rep, pos, seen.drop_last());
        let o = seen.last();
        let s = color_similarity_spec(fav, o.color);
        let v = s * (if s > 0 {
            att
        } else {
            rep
        });
        let dx = o.pos.x - pos.x;
        let dy = o.pos.y - pos.y;
        lemma_color_similarity_bounds(fav, o.color);
        assert(-0x40000000 <= v <= 0x40000000) by (nonlinear_arith)
            requires
                -1024 <= s <= 1024,
                0 <= att <= 1048576,
                0 <= rep <= 1048576,
                v == s * (if s > 0 {
                    att
                } else {
                    rep
                }),
        ;
        if !(dx == 0 && dy == 0) {
            crate::math::lemma_normalize_bounds(dx, dy);
            let nx = crate::math::normalize_x(dx, dy);
            let ny = crate::math::normalize_y(dx, dy);
            assert(-(abs(v) * 65536) <= nx * v <= abs(v) * 65536 && -(abs(v) * 65536) <= ny * v
                <= abs(v) * 65536) by (nonlinear_arith)
                requires
                    -65536 <= nx <= 65536,
                    -65536 <= ny <= 65536,
                    -abs(v) <= v <= abs(v),
                    0 <= abs(v),
            ;
            assert((prev.2 + abs(v)) * 65536 == prev.2 * 65536 + abs(v) * 65536)
                by (nonlinear_arith);
            assert(seen.len() * 0x40000000 == seen.drop_last().len() * 0x40000000 + 0x40000000)
                by (nonlinear_arith)
                requires
                    seen.len() >= 1,
            ;
        } else {
            assert(seen.len() * 0x40000000 >= seen.drop_last().len() * 0x40000000)
                by (nonlinear_arith)
                requires
                    seen.len() >= 1,
            ;
        }
    }
}

impl Blob {
    /// Folds the perceived objects into a steering decision: each object
    /// contributes the unit direction toward it, weighted by the interest
    /// score (color similarity scaled by attraction when positive, by
    /// repulsion when negative); objects at the blob's own position are
    /// skipped.  The target is the normalized weighted average, or nothing
    /// when the weights or the sum degenerate.
    #[verifier::loop_isolation(false)]
    pub fn prepare_step(&self, seen: &Vec<SeenObject>) -> (r: BlobStep)
        requires
            blob_bounds(*self),
        ensures
            r.target() == steer_target_spec(
                self.favorite_color,
                self.color_attraction as int,
                self.color_repulsion as int,
                self.pos_spec(),
                seen@,
            ),
            (r.target() matches Some(d) ==> dir_wf(d)),
    {
        let ghost fav = self.favorite_color;
        let ghost att = self.color_attraction as int;
        let ghost rep = self.color_repulsion as int;
        let mut sum_x: i128 = 0;
        let mut sum_y: i128 = 0;
        let mut count: i128 = 0;
        let n = seen.len();
        let mut i: usize = 0;
        while i < n
            invariant
                0 <= i <= n,
                n == seen@.len(),
                (sum_x as int, sum_y as int, count as int) == steer_fold(
                    fav,
                    att,
                    rep,
                    self.pos_spec(),
                    seen@.take(i as int),
                ),
            decreases n - i,
        {
            proof {
                lemma_steer_fold_bounds(fav, att, rep, self.pos_spec(), seen@.take(i as int));
                assert(seen@.take(i as int).len() * 0x40000000 <= 0xffffffffffffffff * 0x40000000)
                    by (nonlinear_arith)
                    requires
                        0 <= seen@.take(i as int).len() <= 0xffffffffffffffff,
                ;
                assert(count as int * 65536 <= 0xffffffffffffffff * 0x40000000 * 65536
                    && 0xffffffffffffffff * 0x40000000 >= 0) by (nonlinear_arith)
                    requires
                        0 <= count as int <= 0xffffffffffffffff * 0x40000000,
                ;
            }
            let o = seen[i];
            let s: i64 = color_similarity(&self.favorite_color, &o.color);
            let w: i64 = if s > 0 {
                self.color_attraction as i64
            } else {
                self.color_repulsion as i64
            };
            proof {
                assert(-0x40000000 <= s * w <= 0x40000000) by (nonlinear_arith)
                    requires
                        -1024 <= s <= 1024,
                        0 <= w <= 1048576,
                ;
            }
            let v: i64 = s * w;
            let dx: i64 = o.pos.x as i64 - self.pos.x as i64;
            let dy: i64 = o.pos.y as i64 - self.pos.y as i64;
            if !(dx == 0 && dy == 0) {
                let u = normalize_dir(dx, dy);
                proof {
                    assert(-0x400000000000 <= u.x as int * v as int <= 0x400000000000
                        && -0x400000000000 <= u.y as int * v as int <= 0x400000000000)
                        by (nonlinear_arith)
                        requires
                            -65536 <= u.x as int <= 65536,
                            -0x40000000 <= v as int <= 0x40000000,
                            -65536 <= u.y as int <= 65536,
                    ;
                }
                sum_x = sum_x + u.x as i128 * v as i128;
                sum_y = sum_y + u.y as i128 * v as i128;
                count = count + (if v >= 0 {
                    v
                } else {
                    -v
                }) as i128;
            }
            proof {
                assert(seen@.take(i + 1).drop_last() =~= seen@.take(i as int));
                assert(seen@.take(i + 1).last() == seen@[i as int]);
            }
            i = i + 1;
        }
        proof {
            assert(seen@.take(n as int) =~= seen@);
            lemma_steer_fold_bounds(fav, att, rep, self.pos_spec(), seen@);
        }
        if count == 0 || (sum_x == 0 && sum_y == 0) {
            BlobStep { target_direction: None }
        } else {
            proof {
                assert(-(count as int * 65536) * 65536 <= sum_x as int * 65536
                    <= (count as int * 65536) * 65536 && -(count as int * 65536) * 65536
                    <= sum_y as int * 65536 <= (count as int * 65536) * 65536
                    && (count as int * 65536) * 65536 == count as int * 0x100000000
                    && 0 <= count as int * 0x100000000 <= 0x40000000000000000000000000000000)
                    by (nonlinear_arith)
                    requires
                        -(count as int * 65536) <= sum_x as int <= count as int * 65536,
                        -(count as int * 65536) <= sum_y as int <= count as int * 65536,
                        0 < count as int <= 0xffffffffffffffff * 0x40000000,
                ;
                lemma_tdiv_bound(sum_x as int * 65536, count as int, 0x100000000);
                lemma_tdiv_bound(sum_y as int * 65536, count as int, 0x100000000);
            }
            let ax: i64 = div_trunc(sum_x * 65536, count) as i64;
            let ay: i64 = div_trunc(sum_y * 65536, count) as i64;
            if ax == 0 && ay == 0 {
                BlobStep { target_direction: None }
            } else {
                let d = normalize_dir(ax, ay);
                BlobStep { target_direction: Some(d) }
            }
        }
    }
}

} // verus!

// Integration: heading update, movement, boundary reflection, metabolism.

verus! {

/// Relies on rand::random: a uniformly distributed `u32`; nothing is
/// promised of its value.
#[verifier::external_body]
fn random_u32() -> u32 {
    rand::random::<u32>()
}

/// A random initial heading for a blob that has never had one, normalized
/// to (about) unit length.  The drawn direction depends on a random number
/// generator, so only well-formedness and the length bound are known.
fn random_direction() -> (d: Vec2)
    ensures
        dir_wf(d),
        32768 <= abs(d.x as int) || 32768 <= abs(d.y as int),
{
    let a = random_u32();
    let b = random_u32();
    let x: i64 = (a % 131073) as i64 - 65536;
    let y: i64 = (b % 131073) as i64 - 65536;
    if x == 0 && y == 0 {
        Vec2 { x: 65536, y: 0 }
    } else {
        normalize_dir(x, y)
    }
}

/// The rotation fraction of one tick: `rotation_speed * timestep`,
/// rescaled and saturated at a full blend.
pub open spec fn rot_amount_spec(rotation_speed: int, timestep: int) -> int {
    let t = tdiv(rotation_speed * timestep, 1024);
    if t >= 1024 {
        1024
    } else {
        t
    }
}

/// The heading after steering: unchanged without a target, otherwise the
/// current heading blended toward the target by the tick's rotation
/// fraction.
pub open spec fn steer_dir_spec(
    dir: Vec2,
    target: Option<Vec2>,
    rotation_speed: int,
    timestep: int,
) -> Vec2 {
    match target {
        Option::None => dir,
        Option::Some(td) => blend_spec(dir, td, rot_amount_spec(rotation_speed, timestep)),
    }
}

/// One tick of movement: the position advanced by
/// `direction * speed * timestep` (in fixed point), then reflected at the
/// four world edges — an offending coordinate is clamped to the boundary
/// and the corresponding direction component negated.  Returns the new
/// position and direction as `(x, y, dir_x, dir_y)`.
pub open spec fn integrate_spec(pos: Vec2, dir: Vec2, speed: int, t: int, size: Vec2) -> (
    int,
    int,
    int,
    int,
) {
    let mx = pos.x + tdiv(dir.x * speed * t, 67108864);
    let my = pos.y + tdiv(dir.y * speed * t, 67108864);
    let x1 = if mx > size.x {
        size.x as int
    } else {
        mx
    };
    let dx1: int = if mx > size.x {
        -dir.x
    } else {
        dir.x as int
    };
    let y1 = if my > size.y {
        size.y as int
    } else {
        my
    };
    let dy1: int = if my > size.y {
        -dir.y
    } else {
        dir.y as int
    };
    let x2: int = if x1 < 0 {
        0
    } else {
        x1
    };
    let dx2: int = if x1 < 0 {
        -dx1
    } else {
        dx1
    };
    let y2: int = if y1 < 0 {
        0
    } else {
        y1
    };
    let dy2: int = if y1 < 0 {
        -dy1
    } else {
        dy1
    };
    (x2, y2, dx2, dy2)
}

/// The blobs `b0` (before) and `b1` (after) are one integration step
/// apart: for some well-formed heading — the steered heading whenever the
/// blob already had one — the new position and direction are exactly
/// [`integrate_spec`] of the old state.
pub open spec fn moved_per_integration(
    b0: Blob,
    b1: Blob,
    target: Option<Vec2>,
    timestep: int,
    size: Vec2,
) -> bool {
    exists|d: Vec2|
        #![trigger integrate_spec(b0.pos, d, b0.speed as int, timestep, size)]
        dir_wf(d) && (b0.direction != (Vec2 { x: 0, y: 0 }) ==> d == steer_dir_spec(
            b0.direction,
            target,
            b0.rotation_speed as int,
            timestep,
        )) && ({
            let r = integrate_spec(b0.pos, d, b0.speed as int, timestep, size);
            b1.pos == (Vec2 { x: r.0 as i32, y: r.1 as i32 }) && b1.direction == (Vec2 {
                x: r.2 as i32,
                y: r.3 as i32,
            })
        })
}

/// The point `p` is a spot the blob `b0` can have died at during one tick:
/// its position when the fight was recorded (before integration), or its
/// position after one integration step with some well-formed heading.
pub open spec fn death_spot(b0: Blob, p: Vec2, timestep: int, size: Vec2) -> bool {
    ||| p == b0.pos
    ||| exists|d: Vec2|
        #![trigger integrate_spec(b0.pos, d, b0.speed as int, timestep, size)]
        dir_wf(d) && ({
            let r = integrate_spec(b0.pos, d, b0.speed as int, timestep, size);
            p == (Vec2 { x: r.0 as i32, y: r.1 as i32 })
        })
}

/// [`moved_per_integration`] depends only on the pre-blob's position,
/// direction, speed and rotation speed.
proof fn lemma_moved_transfer(
    b0m: Blob,
    b0o: Blob,
    b1: Blob,
    target: Option<Vec2>,
    timestep: int,
    size: Vec2,
)
    requires
        moved_per_integration(b0m, b1, target, timestep, size),
        b0o.pos == b0m.pos,
        b0o.direction == b0m.direction,
        b0o.speed == b0m.speed,
        b0o.rotation_speed == b0m.rotation_speed,
    ensures
        moved_per_integration(b0o, b1, target, timestep, size),
{
    let d = choose|d: Vec2|
        #![trigger integrate_spec(b0m.pos, d, b0m.speed as int, timestep, size)]
        dir_wf(d) && (b0m.direction != (Vec2 { x: 0, y: 0 }) ==> d == steer_dir_spec(
            b0m.direction,
            target,
            b0m.rotation_speed as int,
            timestep,
        )) && ({
            let r = integrate_spec(b0m.pos, d, b0m.speed as int, timestep, size);
            b1.pos == (Vec2 { x: r.0 as i32, y: r.1 as i32 }) && b1.direction == (Vec2 {
                x: r.2 as i32,
                y: r.3 as i32,
            })
        });
    assert(integrate_spec(b0o.pos, d, b0o.speed as int, timestep, size) == integrate_spec(
        b0m.pos,
        d,
        b0m.speed as int,
        timestep,
        size,
    ));
}

/// [`death_spot`] depends only on the pre-blob's position and speed.
proof fn lemma_death_spot_transfer(b0m: Blob, b0o: Blob, p: Vec2, timestep: int, size: Vec2)
    requires
        death_spot(b0m, p, timestep, size),
        b0o.pos == b0m.pos,
        b0o.speed == b0m.speed,
    ensures
        death_spot(b0o, p, timestep, size),
{
    if p != b0m.pos {
        let d = choose|d: Vec2|
            #![trigger integrate_spec(b0m.pos, d, b0m.speed as int, timestep, size)]
            dir_wf(d) && ({
                let r = integrate_spec(b0m.pos, d, b0m.speed as int, timestep, size);
                p == (Vec2 { x: r.0 as i32, y: r.1 as i32 })
            });
        assert(integrate_spec(b0o.pos, d, b0o.speed as int, timestep, size) == integrate_spec(
            b0m.pos,
            d,
            b0m.speed as int,
            timestep,
            size,
        ));
    }
}

impl Blob {
    /// Advances this blob by one tick: picks a random heading if it never
    /// had one, else rotates toward the steering target; moves by
    /// `direction * speed * timestep`; reflects at the world edges;
    /// accumulates hunger and alive time; and mirrors the new position
    /// into the blob's two circles.
    pub fn step(
        &mut self,
        step: &BlobStep,
        timestep: u32,
        physics_world: &mut World,
        world_size: Vec2,
    )
        requires
            blob_bounds(*old(self)),
            old(self).hunger <= 1099511627776,
            old(physics_world).wf(),
            old(physics_world).circles@.contains_key(old(self).circle@),
            old(physics_world).circles@.contains_key(old(self).sight_circle@),
            old(self).circle@ != old(self).sight_circle@,
            timestep <= 1048576,
            1 <= world_size.x <= 1073741824,
            1 <= world_size.y <= 1073741824,
            (step.target() matches Some(d) ==> dir_wf(d)),
        ensures
            blob_bounds(*final(self)),
            dir_wf(final(self).direction),
            0 <= final(self).pos.x <= world_size.x,
            0 <= final(self).pos.y <= world_size.y,
            old(self).direction != (Vec2 { x: 0, y: 0 }) ==> ({
                let d1 = steer_dir_spec(
                    old(self).direction,
                    step.target(),
                    old(self).rotation_speed as int,
                    timestep as int,
                );
                let r = integrate_spec(
                    old(self).pos,
                    d1,
                    old(self).speed as int,
                    timestep as int,
                    world_size,
                );
                final(self).pos == (Vec2 { x: r.0 as i32, y: r.1 as i32 }) && final(self).direction
                    == (Vec2 { x: r.2 as i32, y: r.3 as i32 })
            }),
            moved_per_integration(
                *old(self),
                *final(self),
                step.target(),
                timestep as int,
                world_size,
            ),
            final(self).hunger == old(self).hunger + timestep,
            final(self).alive_time == (if old(self).alive_time + timestep <= u64::MAX {
                old(self).alive_time + timestep
            } else {
                u64::MAX as int
            }),
            final(self).name == old(self).name,
            final(self).speed == old(self).speed,
            final(self).rotation_speed == old(self).rotation_speed,
            final(self).radius == old(self).radius,
            final(self).color == old(self).color,
            final(self).sight_depth == old(self).sight_depth,
            final(self).pov == old(self).pov,
            final(self).favorite_color == old(self).favorite_color,
            final(self).color_attraction == old(self).color_attraction,
            final(self).color_repulsion == old(self).color_repulsion,
            final(self).max_hunger == old(self).max_hunger,
            final(self).hunger_reduction == old(self).hunger_reduction,
            final(self).hunger_division == old(self).hunger_division,
            final(self).attack == old(self).attack,
            final(self).defence == old(self).defence,
            final(self).circle == old(self).circle,
            final(self).sight_circle == old(self).sight_circle,
            final(physics_world).circles@ == old(physics_world).circles@.insert(
                old(self).circle@,
                (Circle {
                    center: final(self).pos,
                    ..old(physics_world).circles@[old(self).circle@]
                }),
            ).insert(
                old(self).sight_circle@,
                (Circle {
                    center: final(self).pos,
                    ..old(physics_world).circles@[old(self).sight_circle@]
                }),
            ),
            final(physics_world).circles.next_id() == old(physics_world).circles.next_id(),
            final(physics_world).circles.wf(),
            final(physics_world).wf(),
            final(physics_world).matrix() == old(physics_world).matrix(),
    {
        if self.direction.x == 0 && self.direction.y == 0 {
            self.direction = random_direction();
        } else if let Some(td) = step.target_direction {
            proof {
                assert(0 <= self.rotation_speed as int * timestep as int <= 0x10000000000)
                    by (nonlinear_arith)
                    requires
                        0 <= self.rotation_speed <= 1048576,
                        0 <= timestep <= 1048576,
                ;
            }
            let tq: u64 = self.rotation_speed as u64 * timestep as u64 / 1024;
            let tc: i32 = if tq >= 1024 {
                1024
            } else {
                tq as i32
            };
            proof {
                vstd::arithmetic::div_mod::lemma_div_pos_is_pos(
                    self.rotation_speed as int * timestep as int,
                    1024,
                );
                assert(tc as int == rot_amount_spec(
                    self.rotation_speed as int,
                    timestep as int,
                ));
            }
            self.direction = blend_dir(self.direction, td, tc);
        }
        let d = self.direction;
        proof {
            assert(-0x10000000000 <= d.x as int * self.speed as int <= 0x10000000000
                && -0x10000000000 <= d.y as int * self.speed as int <= 0x10000000000
                && -0x100000000000000 <= d.x as int * self.speed as int * timestep as int
                <= 0x100000000000000 && -0x100000000000000 <= d.y as int * self.speed as int
                * timestep as int <= 0x100000000000000) by (nonlinear_arith)
                requires
                    -65536 <= d.x <= 65536,
                    -65536 <= d.y <= 65536,
                    0 <= self.speed <= 1048576,
                    0 <= timestep <= 1048576,
            ;
            lemma_tdiv_bound(
                d.x as int * self.speed as int * timestep as int,
                67108864,
                0x100000000000000,
            );
            lemma_tdiv_bound(
                d.y as int * self.speed as int * timestep as int,
                67108864,
                0x100000000000000,
            );
        }
        let ddx: i64 = div_trunc(d.x as i128 * self.speed as i128 * timestep as i128, 67108864)
            as i64;
        let ddy: i64 = div_trunc(d.y as i128 * self.speed as i128 * timestep as i128, 67108864)
            as i64;
        let mut nx: i64 = self.pos.x as i64 + ddx;
        let mut ny: i64 = self.pos.y as i64 + ddy;
        let mut dirx: i32 = d.x;
        let mut diry: i32 = d.y;
        if nx > world_size.x as i64 {
            nx = world_size.x as i64;
            dirx = -dirx;
        }
        if ny > world_size.y as i64 {
            ny = world_size.y as i64;
            diry = -diry;
        }
        if nx < 0 {
            nx = 0;
            dirx = -dirx;
        }
        if ny < 0 {
            ny = 0;
            diry = -diry;
        }
        self.pos = Vec2 { x: nx as i32, y: ny as i32 };
        self.direction = Vec2 { x: dirx, y: diry };
        self.hunger = self.hunger + timestep as i64;
        self.alive_time = if self.alive_time <= u64::MAX - timestep as u64 {
            self.alive_time + timestep as u64
        } else {
            u64::MAX
        };
        if let Some(c) = physics_world.circles.get_mut(self.circle) {
            c.center = self.pos;
        } else {
            proof {
                assert(false);
            }
        }
        if let Some(c) = physics_world.circles.get_mut(self.sight_circle) {
            c.center = self.pos;
        } else {
            proof {
                assert(false);
            }
        }
        proof {
            assert(final(physics_world).circles@ =~= old(physics_world).circles@.insert(
                old(self).circle@,
                (Circle {
                    center: final(self).pos,
                    ..old(physics_world).circles@[old(self).circle@]
                }),
            ).insert(
                old(self).sight_circle@,
                (Circle {
                    center: final(self).pos,
                    ..old(physics_world).circles@[old(self).sight_circle@]
                }),
            ));
            let r = integrate_spec(
                old(self).pos,
                d,
                old(self).speed as int,
                timestep as int,
                world_size,
            );
            assert(final(self).pos == (Vec2 { x: r.0 as i32, y: r.1 as i32 })
                && final(self).direction == (Vec2 { x: r.2 as i32, y: r.3 as i32 }));
        }
    }
}

} // verus!

// The simulation: entity arenas, the circle tagging and the world.

verus! {

/// The map from circle identifiers to the entity each circle stands for.
/// Its view is a `Map<u64, CircleObject>`.
pub struct ObjectMap {
    entries: Vec<(u64, CircleObject)>,
}

/// The map described by a sequence of identifier/object entries.
spec fn objects_map(s: Seq<(u64, CircleObject)>) -> Map<u64, CircleObject>
    decreases s.len(),
{
    if s.len() == 0 {
        Map::empty()
    } else {
        objects_map(s.drop_last()).insert(s.last().0, s.last().1)
    }
}

/// Entry sequences with pairwise distinct identifiers describe exactly the
/// map of their entries.
proof fn lemma_objects_map(s: Seq<(u64, CircleObject)>)
    requires
        forall|i: int, j: int| 0 <= i < j < s.len() ==> s[i].0 != s[j].0,
    ensures
        forall|k: u64|
            #[trigger] objects_map(s).contains_key(k) <==> exists|i: int|
                0 <= i < s.len() && s[i].0 == k,
        forall|i: int|
            0 <= i < s.len() ==> objects_map(s).contains_key(#[trigger] s[i].0) && objects_map(
                s,
            )[s[i].0] == s[i].1,
    decreases s.len(),
{
    if s.len() > 0 {
        lemma_objects_map(s.drop_last());
        assert forall|i: int|
            0 <= i < s.len() implies objects_map(s).contains_key(#[trigger] s[i].0) && objects_map(
            s,
        )[s[i].0] == s[i].1 by {
            if i < s.len() - 1 {
                assert(s.drop_last()[i] == s[i]);
                assert(s[i].0 != s.last().0);
            }
        }
        assert forall|k: u64| #[trigger] objects_map(s).contains_key(k) implies exists|i: int|
            0 <= i < s.len() && s[i].0 == k by {
            if k == s.last().0 {
                assert(s[s.len() - 1].0 == k);
            } else {
                assert(objects_map(s) == objects_map(s.drop_last()).insert(s.last().0, s.last().1));
                assert(objects_map(s.drop_last()).contains_key(k));
                let i = choose|i: int| 0 <= i < s.drop_last().len() && s.drop_last()[i].0 == k;
                assert(s.drop_last()[i] == s[i]);
            }
        }
    }
}

impl View for ObjectMap {
    type V = Map<u64, CircleObject>;

    closed spec fn view(&self) -> Map<u64, CircleObject> {
        objects_map(self.entries@)
    }
}

impl ObjectMap {
    /// Well-formedness: one entry per circle identifier.
    pub closed spec fn wf(&self) -> bool {
        forall|i: int, j: int| 0 <= i < j < self.entries@.len() ==> self.entries@[i].0
            != self.entries@[j].0
    }

    /// Creates an empty map.
    pub fn new() -> (r: Self)
        ensures
            r.wf(),
            r@ == Map::<u64, CircleObject>::empty(),
    {
        ObjectMap { entries: Vec::new() }
    }

    /// Finds the position of `key`, if present.
    fn find(&self, key: u64) -> (r: Option<usize>)
        requires
            self.wf(),
        ensures
            match r {
                Some(i) => i < self.entries@.len() && self.entries@[i as int].0 == key,
                None => forall|i: int| 0 <= i < self.entries@.len() ==> self.entries@[i].0 != key,
            },
    {
        let n = self.entries.len();
        for i in 0..n
            invariant
                n == self.entries@.len(),
                forall|j: int| 0 <= j < i ==> self.entries@[j].0 != key,
        {
            if self.entries[i].0 == key {
                return Some(i);
            }
        }
        None
    }

    /// Records what circle `key` stands for.
    pub fn insert(&mut self, key: u64, value: CircleObject)
        requires
            old(self).wf(),
        ensures
            final(self).wf(),
            final(self)@ == old(self)@.insert(key, value),
    {
        proof {
            lemma_objects_map(self.entries@);
        }
        match self.find(key) {
            Some(i) => {
                self.entries.set(i, (key, value));
                proof {
                    lemma_objects_map_update(old(self).entries@, i as int, value);
                }
            },
            None => {
                self.entries.push((key, value));
                proof {
                    assert(self.entries@.drop_last() =~= old(self).entries@);
                }
            },
        }
    }

    /// Forgets circle `key`.
    pub fn remove(&mut self, key: u64)
        requires
            old(self).wf(),
        ensures
            final(self).wf(),
            final(self)@ == old(self)@.remove(key),
    {
        proof {
            lemma_objects_map(self.entries@);
        }
        match self.find(key) {
            Some(i) => {
                self.entries.remove(i);
                proof {
                    lemma_objects_map_remove(old(self).entries@, i as int);
                }
            },
            None => {
                proof {
                    assert(final(self)@ =~= old(self)@.remove(key));
                }
            },
        }
    }

    /// What circle `key` stands for, if it is known.
    pub fn get(&self, key: u64) -> (r: Option<&CircleObject>)
        requires
            self.wf(),
        ensures
            match r {
                Some(v) => self@.contains_key(key) && *v == self@[key],
                None => !self@.contains_key(key),
            },
    {
        proof {
            lemma_objects_map(self.entries@);
        }
        match self.find(key) {
            Some(i) => Some(&self.entries[i].1),
            None => None,
        }
    }
}

/// Overwriting one entry's object updates exactly that identifier.
proof fn lemma_objects_map_update(s: Seq<(u64, CircleObject)>, i: int, v: CircleObject)
    requires
        forall|p: int, q: int| 0 <= p < q < s.len() ==> s[p].0 != s[q].0,
        0 <= i < s.len(),
    ensures
        objects_map(s.update(i, (s[i].0, v))) == objects_map(s).insert(s[i].0, v),
    decreases s.len(),
{
    lemma_objects_map(s);
    let s2 = s.update(i, (s[i].0, v));
    if i == s.len() - 1 {
        assert(s2.drop_last() =~= s.drop_last());
        assert(objects_map(s2) =~= objects_map(s).insert(s[i].0, v));
    } else {
        assert(s2.drop_last() =~= s.drop_last().update(i, (s[i].0, v)));
        lemma_objects_map_update(s.drop_last(), i, v);
        assert(s2.last() == s.last());
        assert(objects_map(s2) =~= objects_map(s).insert(s[i].0, v));
    }
}

/// Removing one entry removes exactly that identifier.
proof fn lemma_objects_map_remove(s: Seq<(u64, CircleObject)>, i: int)
    requires
        forall|p: int, q: int| 0 <= p < q < s.len() ==> s[p].0 != s[q].0,
        0 <= i < s.len(),
    ensures
        objects_map(s.remove(i)) == objects_map(s).remove(s[i].0),
    decreases s.len(),
{
    lemma_objects_map(s);
    let s2 = s.remove(i);
    if i == s.len() - 1 {
        assert(s2 =~= s.drop_last());
        assert(!objects_map(s.drop_last()).contains_key(s[i].0)) by {
            lemma_objects_map(s.drop_last());
        }
        assert(objects_map(s2) =~= objects_map(s).remove(s[i].0));
    } else {
        assert(s2.drop_last() =~= s.drop_last().remove(i));
        lemma_objects_map_remove(s.drop_last(), i);
        assert(s2.last() == s.last());
        assert(objects_map(s2) =~= objects_map(s).remove(s[i].0));
    }
}

/// The collision matrix the simulation is built with: blob bodies and the
/// two kinds of sensing circles (sight and selection probes) register
/// collisions with bodies and food; food itself registers nothing.
pub open spec fn sim_matrix() -> Map<u32, u32> {
    map![1u32 => 5u32, 2u32 => 5u32, 4u32 => 0u32, 16u32 => 5u32]
}

/// The whole simulation: the blob and food arenas, the circle tagging, and
/// the collision world, in a space of the given size.
pub struct Simulation {
    pub size: Vec2,
    pub blobs: KeyedSet<Blob>,
    pub foods: KeyedSet<Food>,
    pub objects: ObjectMap,
    pub physics: World,
}

impl Simulation {
    /// The per-blob structural invariant: attribute bounds and the blob's
    /// two circles live in the world at the blob's position, with matching
    /// radii, the right layers, and tagged back to this blob.
    pub open spec fn blob_ok_core(&self, k: u64) -> bool {
        let b = self.blobs@[k];
        &&& blob_bounds(b)
        &&& b.circle@ != b.sight_circle@
        &&& self.physics.circles@.contains_key(b.circle@)
        &&& self.physics.circles@[b.circle@].center == b.pos
        &&& self.physics.circles@[b.circle@].radius == b.radius
        &&& self.physics.circles@[b.circle@].layer@ == 1
        &&& self.physics.circles@.contains_key(b.sight_circle@)
        &&& self.physics.circles@[b.sight_circle@].center == b.pos
        &&& self.physics.circles@[b.sight_circle@].radius == b.sight_depth
        &&& self.physics.circles@[b.sight_circle@].layer@ == 2
        &&& self.objects@.contains_key(b.circle@)
        &&& (self.objects@[b.circle@] matches CircleObject::Blob(bk) && bk@ == k)
        &&& self.objects@.contains_key(b.sight_circle@)
        &&& (self.objects@[b.sight_circle@] matches CircleObject::BlobSight(bk) && bk@ == k)
    }

    /// The per-food invariant: the food's circle lives in the world at the
    /// food's position with the fixed radius, the food layer, and tagged
    /// back to this food.
    pub open spec fn food_ok(&self, k: u64) -> bool {
        let f = self.foods@[k];
        &&& self.physics.circles@.contains_key(f.circle@)
        &&& self.physics.circles@[f.circle@].center == f.pos
        &&& self.physics.circles@[f.circle@].radius == FOOD_RADIUS
        &&& self.physics.circles@[f.circle@].layer@ == 4
        &&& self.objects@.contains_key(f.circle@)
        &&& (self.objects@[f.circle@] matches CircleObject::Food(fk) && fk@ == k)
    }

    /// The per-circle invariant: every live circle is tagged, and the tag
    /// points back to a live entity that owns exactly this circle.
    pub open spec fn circle_ok(&self, c: u64) -> bool {
        &&& self.objects@.contains_key(c)
        &&& match self.objects@[c] {
            CircleObject::Blob(bk) => self.blobs@.contains_key(bk@) && self.blobs@[bk@].circle@
                == c,
            CircleObject::BlobSight(bk) => self.blobs@.contains_key(bk@)
                && self.blobs@[bk@].sight_circle@ == c,
            CircleObject::Food(fk) => self.foods@.contains_key(fk@) && self.foods@[fk@].circle@
                == c,
        }
    }

    /// The structural part of well-formedness: the arenas and the world
    /// are well-formed, the space has a positive bounded size, the
    /// collision matrix is the fixed one, and the circle/entity
    /// cross-references are exact in both directions.  (It leaves out the
    /// hunger cap, which one tick restores only at its end.)
    pub open spec fn wf_core(&self) -> bool {
        &&& self.blobs.wf()
        &&& self.foods.wf()
        &&& self.objects.wf()
        &&& self.physics.wf()
        &&& 1 <= self.size.x <= 1073741824
        &&& 1 <= self.size.y <= 1073741824
        &&& self.physics.matrix() == sim_matrix()
        &&& forall|k: u64| #[trigger] self.blobs@.contains_key(k) ==> self.blob_ok_core(k)
        &&& forall|k: u64| #[trigger] self.foods@.contains_key(k) ==> self.food_ok(k)
        &&& forall|c: u64| #[trigger] self.physics.circles@.contains_key(c) ==> self.circle_ok(c)
        &&& forall|c: u64|
            #[trigger] self.objects@.contains_key(c) ==> self.physics.circles@.contains_key(c)
    }

    /// Full well-formedness: the structural invariant, and every blob's
    /// hunger within its capacity (a starved blob is removed before the
    /// tick ends, so this holds between ticks).
    pub open spec fn wf(&self) -> bool {
        &&& self.wf_core()
        &&& forall|k: u64|
            #[trigger] self.blobs@.contains_key(k) ==> self.blobs@[k].hunger
                <= self.blobs@[k].max_hunger
    }

    /// Creates a simulation with a space of the given dimensions and no
    /// entities.
    pub fn new(size: Vec2) -> (r: Self)
        requires
            1 <= size.x <= 1073741824,
            1 <= size.y <= 1073741824,
        ensures
            r.wf(),
            r.size == size,
            r.blobs@ == Map::<u64, Blob>::empty(),
            r.foods@ == Map::<u64, Food>::empty(),
            r.physics.circles@ == Map::<u64, Circle>::empty(),
    {
        proof {
            assert(1u32 << 0u8 == 1u32 && 1u32 << 1u8 == 2u32 && 1u32 << 2u8 == 4u32 && 1u32 << 4u8
                == 16u32 && (0u32 | 4u32) == 4u32 && (4u32 | 1u32) == 5u32 && (0u32 | 0u32)
                == 0u32) by (bit_vector);
        }
        let blob_layer = Layer::new(0);
        let sight_layer = Layer::new(1);
        let food_layer = Layer::new(2);
        let selection_layer = Layer::new(4);
        let mut collision_matrix = CollisionMatrix::new();
        let mut both_layers: Vec<Layer> = Vec::new();
        both_layers.push(food_layer);
        both_layers.push(blob_layer);
        let blob_and_food = LayerMask::new(both_layers);
        proof {
            let ls = seq![food_layer, blob_layer];
            assert(both_layers@ =~= ls);
            assert(ls.drop_last() =~= seq![food_layer]);
            assert(seq![food_layer].drop_last() =~= Seq::<Layer>::empty());
            assert(crate::physics::or_all(Seq::<Layer>::empty()) == 0u32);
            assert(food_layer@ == 4u32 && blob_layer@ == 1u32 && sight_layer@ == 2u32
                && selection_layer@ == 16u32);
            assert(crate::physics::or_all(seq![food_layer]) == (0u32 | 4u32));
            assert(crate::physics::or_all(ls) == (4u32 | 1u32));
            assert(blob_and_food@ == 5u32);
        }
        collision_matrix.insert(blob_layer, blob_and_food);
        collision_matrix.insert(food_layer, LayerMask::empty());
        collision_matrix.insert(sight_layer, blob_and_food);
        collision_matrix.insert(selection_layer, blob_and_food);
        let physics = World::new(collision_matrix);
        proof {
            assert(physics.matrix() =~= sim_matrix());
        }
        Simulation {
            size,
            blobs: KeyedSet::new(),
            foods: KeyedSet::new(),
            objects: ObjectMap::new(),
            physics,
        }
    }

    /// The size of the simulation's space.
    pub fn size(&self) -> (r: Vec2)
        ensures
            r == self.size,
    {
        self.size
    }
}

} // verus!

// Food management.

verus! {

impl Simulation {
    /// Puts a food at `pos`: allocates its circle, stores the food, and
    /// tags the circle.
    pub fn insert_food(&mut self, pos: Vec2) -> (key: Key<Food>)
        requires
            old(self).wf_core(),
            old(self).physics.circles.next_id() < u64::MAX,
            old(self).foods.next_id() < u64::MAX,
        ensures
            final(self).wf_core(),
            old(self).wf() ==> final(self).wf(),
            final(self).blobs == old(self).blobs,
            key@ == old(self).foods.next_id(),
            !old(self).foods@.contains_key(key@),
            final(self).foods@ == old(self).foods@.insert(key@, final(self).foods@[key@]),
            final(self).foods@[key@].pos == pos,
            final(self).blobs@ == old(self).blobs@,
            final(self).size == old(self).size,
            final(self).foods.next_id() == old(self).foods.next_id() + 1,
            final(self).blobs.next_id() == old(self).blobs.next_id(),
            final(self).physics.circles.next_id() == old(self).physics.circles.next_id() + 1,
            !old(self).physics.circles@.contains_key(final(self).foods@[key@].circle@),
            final(self).physics.circles@ == old(self).physics.circles@.insert(
                final(self).foods@[key@].circle@,
                final(self).physics.circles@[final(self).foods@[key@].circle@],
            ),
    {
        proof {
            assert(1u32 << 2u8 == 4u32) by (bit_vector);
        }
        let food_layer = Layer::new(2);
        let circle = self.physics.circles.insert(
            Circle { center: pos, radius: FOOD_RADIUS, layer: food_layer },
        );
        let food = Food { pos, circle };
        let key = self.foods.insert(food);
        self.objects.insert(circle.id(), CircleObject::Food(key));
        proof {
            let s0 = old(self);
            let s1 = self;
            assert(!s0.objects@.contains_key(circle@));
            assert forall|k: u64| #[trigger] s1.blobs@.contains_key(k) implies s1.blob_ok_core(k) by {
                assert(s0.blob_ok_core(k));
                let b = s0.blobs@[k];
                assert(s0.physics.circles@.contains_key(b.circle@));
                assert(s0.physics.circles@.contains_key(b.sight_circle@));
            }
            assert forall|k: u64| #[trigger] s1.foods@.contains_key(k) implies s1.food_ok(k) by {
                if k == key@ {
                    assert(s1.foods@[k] == food);
                } else {
                    assert(s0.food_ok(k));
                    let f = s0.foods@[k];
                    assert(s0.physics.circles@.contains_key(f.circle@));
                }
            }
            assert forall|c: u64|
                #[trigger] s1.physics.circles@.contains_key(c) implies s1.circle_ok(c) by {
                if c == circle@ {
                    assert(s1.objects@[c] == CircleObject::Food(key));
                } else {
                    assert(s0.circle_ok(c));
                }
            }
        }
        key
    }

    /// Gets a food.
    pub fn get_food(&self, food: Key<Food>) -> (r: Option<&Food>)
        requires
            self.wf(),
        ensures
            match r {
                Some(f) => self.foods@.contains_key(food@) && *f == self.foods@[food@],
                None => !self.foods@.contains_key(food@),
            },
    {
        self.foods.get(food)
    }

    /// Gets a food for mutation.
    pub fn get_food_mut(&mut self, food: Key<Food>) -> (r: Option<&mut Food>)
        requires
            old(self).wf(),
        ensures
            match r {
                Some(f) => old(self).foods@.contains_key(food@) && *f == old(self).foods@[food@]
                    && final(self).foods@ == old(self).foods@.insert(food@, *final(f))
                    && final(self).blobs == old(self).blobs && final(self).physics == old(
                    self,
                ).physics && final(self).objects == old(self).objects && final(self).size == old(
                    self,
                ).size && final(self).foods.wf() && final(self).foods.next_id() == old(
                    self,
                ).foods.next_id(),
                None => !old(self).foods@.contains_key(food@) && *final(self) == *old(self),
            },
    {
        self.foods.get_mut(food)
    }

    /// Removes a food together with its circle and tag; removing an
    /// already absent key changes nothing.
    pub fn remove_food(&mut self, food: Key<Food>) -> (r: Option<Food>)
        requires
            old(self).wf_core(),
        ensures
            final(self).wf_core(),
            old(self).wf() ==> final(self).wf(),
            final(self).blobs == old(self).blobs,
            final(self).size == old(self).size,
            final(self).foods.next_id() == old(self).foods.next_id(),
            final(self).blobs.next_id() == old(self).blobs.next_id(),
            final(self).physics.circles.next_id() == old(self).physics.circles.next_id(),
            match r {
                Some(f) => old(self).foods@.contains_key(food@) && f == old(self).foods@[food@]
                    && final(self).foods@ == old(self).foods@.remove(food@)
                    && final(self).physics.circles@ == old(self).physics.circles@.remove(
                    f.circle@,
                ),
                None => !old(self).foods@.contains_key(food@) && *final(self) == *old(self),
            },
    {
        let removed = self.foods.remove(food);
        match removed {
            Some(f) => {
                proof {
                    assert(old(self).food_ok(food@));
                }
                self.objects.remove(f.circle.id());
                self.physics.circles.remove(f.circle);
                proof {
                    let s0 = old(self);
                    let s1 = self;
                    assert forall|k: u64|
                        #[trigger] s1.blobs@.contains_key(k) implies s1.blob_ok_core(k) by {
                        assert(s0.blob_ok_core(k));
                        let b = s0.blobs@[k];
                        assert(s0.circle_ok(f.circle@));
                        assert(b.circle@ != f.circle@ && b.sight_circle@ != f.circle@);
                    }
                    assert forall|k: u64|
                        #[trigger] s1.foods@.contains_key(k) implies s1.food_ok(k) by {
                        assert(s0.food_ok(k));
                        assert(k != food@);
                        let f2 = s0.foods@[k];
                        assert(s0.circle_ok(f.circle@));
                        if f2.circle@ == f.circle@ {
                            assert(s0.objects@[f.circle@] matches CircleObject::Food(fk) && fk@
                                == k);
                            assert(s0.objects@[f.circle@] matches CircleObject::Food(fk) && fk@
                                == food@);
                        }
                    }
                    assert forall|c: u64|
                        #[trigger] s1.physics.circles@.contains_key(c) implies s1.circle_ok(c) by {
                        assert(s0.circle_ok(c));
                        match s0.objects@[c] {
                            CircleObject::Blob(bk) => {
                            },
                            CircleObject::BlobSight(bk) => {
                            },
                            CircleObject::Food(fk) => {
                                if fk@ == food@ {
                                    assert(s0.foods@[fk@].circle@ == c);
                                    assert(c == f.circle@);
                                }
                            },
                        }
                    }
                }
                Some(f)
            },
            None => None,
        }
    }
}

impl Food {
    /// The food's position.
    pub fn pos(&self) -> (r: Vec2)
        ensures
            r == self.pos,
    {
        self.pos
    }

    /// Moves the food, keeping its circle at the same position.
    pub fn set_pos(&mut self, physics_world: &mut World, value: Vec2)
        requires
            old(physics_world).wf(),
            old(physics_world).circles@.contains_key(old(self).circle@),
        ensures
            *final(self) == (Food { pos: value, circle: old(self).circle }),
            final(physics_world).wf(),
            final(physics_world).matrix() == old(physics_world).matrix(),
            final(physics_world).circles.next_id() == old(physics_world).circles.next_id(),
            final(physics_world).circles@ == old(physics_world).circles@.insert(
                old(self).circle@,
                (Circle { center: value, ..old(physics_world).circles@[old(self).circle@] }),
            ),
    {
        self.pos = value;
        if let Some(c) = physics_world.circles.get_mut(self.circle) {
            c.center = value;
        } else {
            proof {
                assert(false);
            }
        }
        proof {
            assert(final(physics_world).circles@ =~= old(physics_world).circles@.insert(
                old(self).circle@,
                (Circle { center: value, ..old(physics_world).circles@[old(self).circle@] }),
            ));
        }
    }
}

} // verus!

// Blob management.

verus! {

impl Simulation {
    /// Puts a blob in the simulation: allocates its body and sight
    /// circles, stores the blob, and tags both circles.
    pub fn insert_blob(
        &mut self,
        pos: Vec2,
        radius: i32,
        color: Color,
        speed: i32,
        rotation_speed: i32,
        pov: i32,
        sight_depth: i32,
        favorite_color: Color,
        color_attraction: i32,
        color_repulsion: i32,
        max_hunger: i64,
        attack: i64,
        defence: i64,
        hunger_reduction: i32,
        hunger_division: i32,
    ) -> (key: Key<Blob>)
        requires
            old(self).wf_core(),
            old(self).physics.circles.next_id() < u64::MAX - 1,
            old(self).blobs.next_id() < u64::MAX,
            0 <= speed <= 1048576,
            0 <= rotation_speed <= 1048576,
            0 <= radius <= 1073741824,
            0 <= sight_depth <= 1073741824,
            -1024 <= pov <= 1024,
            0 <= color_attraction <= 1048576,
            0 <= color_repulsion <= 1048576,
            1 <= max_hunger <= 1099511627776,
            0 <= hunger_reduction <= 1048576,
            0 <= hunger_division <= 1048576,
            0 <= attack <= 1099511627776,
            0 <= defence <= 1099511627776,
        ensures
            final(self).wf_core(),
            old(self).wf() ==> final(self).wf(),
            !old(self).blobs@.contains_key(key@),
            final(self).blobs@ == old(self).blobs@.insert(key@, final(self).blobs@[key@]),
            final(self).blobs@[key@] == (Blob {
                name: Option::None,
                alive_time: 0,
                speed,
                rotation_speed,
                radius,
                color,
                sight_depth,
                pov,
                favorite_color,
                color_attraction,
                color_repulsion,
                pos,
                direction: Vec2 { x: 0, y: 0 },
                circle: final(self).blobs@[key@].circle,
                sight_circle: final(self).blobs@[key@].sight_circle,
                hunger: 0,
                max_hunger,
                hunger_reduction,
                hunger_division,
                attack,
                defence,
            }),
            final(self).foods@ == old(self).foods@,
            final(self).size == old(self).size,
            final(self).blobs.next_id() == old(self).blobs.next_id() + 1,
            final(self).foods.next_id() == old(self).foods.next_id(),
    {
        proof {
            assert(1u32 << 0u8 == 1u32 && 1u32 << 1u8 == 2u32) by (bit_vector);
        }
        let blob_layer = Layer::new(0);
        let sight_layer = Layer::new(1);
        let circle = self.physics.circles.insert(
            Circle { center: pos, radius, layer: blob_layer },
        );
        let sight_circle = self.physics.circles.insert(
            Circle { center: pos, radius: sight_depth, layer: sight_layer },
        );
        let blob = Blob {
            name: None,
            alive_time: 0,
            speed,
            rotation_speed,
            radius,
            color,
            sight_depth,
            pov,
            favorite_color,
            color_attraction,
            color_repulsion,
            pos,
            direction: Vec2 { x: 0, y: 0 },
            circle,
            sight_circle,
            hunger: 0,
            max_hunger,
            hunger_reduction,
            hunger_division,
            attack,
            defence,
        };
        let key = self.blobs.insert(blob);
        self.objects.insert(circle.id(), CircleObject::Blob(key));
        self.objects.insert(sight_circle.id(), CircleObject::BlobSight(key));
        proof {
            let s0 = old(self);
            let s1 = self;
            assert(!s0.objects@.contains_key(circle@));
            assert(!s0.objects@.contains_key(sight_circle@));
            assert forall|k: u64| #[trigger] s1.blobs@.contains_key(k) implies s1.blob_ok_core(k) by {
                if k == key@ {
                    assert(s1.blobs@[k] == blob);
                } else {
                    assert(s0.blob_ok_core(k));
                    let b = s0.blobs@[k];
                    assert(s0.physics.circles@.contains_key(b.circle@));
                    assert(s0.physics.circles@.contains_key(b.sight_circle@));
                }
            }
            assert forall|k: u64| #[trigger] s1.foods@.contains_key(k) implies s1.food_ok(k) by {
                assert(s0.food_ok(k));
                let f = s0.foods@[k];
                assert(s0.physics.circles@.contains_key(f.circle@));
            }
            assert forall|c: u64|
                #[trigger] s1.physics.circles@.contains_key(c) implies s1.circle_ok(c) by {
                if c == circle@ {
                    assert(s1.objects@[c] == CircleObject::Blob(key));
                } else if c == sight_circle@ {
                    assert(s1.objects@[c] == CircleObject::BlobSight(key));
                } else {
                    assert(s0.circle_ok(c));
                }
            }
        }
        key
    }

    /// Gets a blob.
    pub fn get_blob(&self, blob: Key<Blob>) -> (r: Option<&Blob>)
        requires
            self.wf(),
        ensures
            match r {
                Some(b) => self.blobs@.contains_key(blob@) && *b == self.blobs@[blob@],
                None => !self.blobs@.contains_key(blob@),
            },
    {
        self.blobs.get(blob)
    }

    /// Gets a blob for mutation.
    pub fn get_blob_mut(&mut self, blob: Key<Blob>) -> (r: Option<&mut Blob>)
        requires
            old(self).wf(),
        ensures
            match r {
                Some(b) => old(self).blobs@.contains_key(blob@) && *b == old(self).blobs@[blob@]
                    && final(self).blobs@ == old(self).blobs@.insert(blob@, *final(b))
                    && final(self).foods == old(self).foods && final(self).physics == old(
                    self,
                ).physics && final(self).objects == old(self).objects && final(self).size == old(
                    self,
                ).size && final(self).blobs.wf() && final(self).blobs.next_id() == old(
                    self,
                ).blobs.next_id(),
                None => !old(self).blobs@.contains_key(blob@) && *final(self) == *old(self),
            },
    {
        self.blobs.get_mut(blob)
    }

    /// Removes a blob together with its two circles and their tags;
    /// removing an already absent key changes nothing.
    pub fn remove_blob(&mut self, blob: Key<Blob>) -> (r: Option<Blob>)
        requires
            old(self).wf_core(),
        ensures
            final(self).wf_core(),
            old(self).wf() ==> final(self).wf(),
            forall|k: u64|
                #[trigger] final(self).blobs@.contains_key(k) ==> old(self).blobs@.contains_key(k)
                    && final(self).blobs@[k] == old(self).blobs@[k],
            final(self).foods@ == old(self).foods@,
            final(self).size == old(self).size,
            final(self).foods.next_id() == old(self).foods.next_id(),
            final(self).blobs.next_id() == old(self).blobs.next_id(),
            final(self).physics.circles.next_id() == old(self).physics.circles.next_id(),
            match r {
                Some(b) => old(self).blobs@.contains_key(blob@) && b == old(self).blobs@[blob@]
                    && final(self).blobs@ == old(self).blobs@.remove(blob@)
                    && final(self).physics.circles@ == old(self).physics.circles@.remove(
                    b.circle@,
                ).remove(b.sight_circle@),
                None => !old(self).blobs@.contains_key(blob@) && *final(self) == *old(self),
            },
    {
        let removed = self.blobs.remove(blob);
        match removed {
            Some(b) => {
                proof {
                    assert(old(self).blob_ok_core(blob@));
                }
                self.objects.remove(b.circle.id());
                self.objects.remove(b.sight_circle.id());
                self.physics.circles.remove(b.circle);
                self.physics.circles.remove(b.sight_circle);
                proof {
                    let s0 = old(self);
                    let s1 = self;
                    assert(s0.circle_ok(b.circle@));
                    assert(s0.circle_ok(b.sight_circle@));
                    assert forall|k: u64|
                        #[trigger] s1.blobs@.contains_key(k) implies s1.blob_ok_core(k) by {
                        assert(s0.blob_ok_core(k));
                        assert(k != blob@);
                        let b2 = s0.blobs@[k];
                        if b2.circle@ == b.circle@ || b2.circle@ == b.sight_circle@
                            || b2.sight_circle@ == b.circle@ || b2.sight_circle@
                            == b.sight_circle@ {
                            assert(false);
                        }
                    }
                    assert forall|k: u64|
                        #[trigger] s1.foods@.contains_key(k) implies s1.food_ok(k) by {
                        assert(s0.food_ok(k));
                        let f = s0.foods@[k];
                        if f.circle@ == b.circle@ || f.circle@ == b.sight_circle@ {
                            assert(false);
                        }
                    }
                    assert forall|c: u64|
                        #[trigger] s1.physics.circles@.contains_key(c) implies s1.circle_ok(c) by {
                        assert(s0.circle_ok(c));
                        match s0.objects@[c] {
                            CircleObject::Blob(bk) => {
                                if bk@ == blob@ {
                                    assert(c == b.circle@);
                                }
                            },
                            CircleObject::BlobSight(bk) => {
                                if bk@ == blob@ {
                                    assert(c == b.sight_circle@);
                                }
                            },
                            CircleObject::Food(fk) => {
                            },
                        }
                    }
                }
                Some(b)
            },
            None => None,
        }
    }

    /// Moves a blob (and its circles) to `pos`; absent keys are ignored.
    pub fn set_blob_pos(&mut self, blob: Key<Blob>, pos: Vec2)
        requires
            old(self).wf(),
        ensures
            final(self).wf(),
            final(self).foods == old(self).foods,
            final(self).size == old(self).size,
            old(self).blobs@.contains_key(blob@) ==> final(self).blobs@ == old(
                self,
            ).blobs@.insert(blob@, final(self).blobs@[blob@]) && final(self).blobs@[blob@] == (Blob {
                pos,
                ..old(self).blobs@[blob@]
            }),
            !old(self).blobs@.contains_key(blob@) ==> *final(self) == *old(self),
    {
        proof {
            if old(self).blobs@.contains_key(blob@) {
                assert(old(self).blob_ok_core(blob@));
            }
        }
        let info = match self.blobs.get(blob) {
            Some(b) => Some((b.circle, b.sight_circle)),
            None => None,
        };
        if let Some((ck, sk)) = info {
            if let Some(b) = self.blobs.get_mut(blob) {
                b.pos = pos;
            }
            if let Some(c) = self.physics.circles.get_mut(ck) {
                c.center = pos;
            } else {
                proof {
                    assert(false);
                }
            }
            if let Some(c) = self.physics.circles.get_mut(sk) {
                c.center = pos;
            } else {
                proof {
                    assert(false);
                }
            }
            proof {
                let s0 = old(self);
                let s1 = self;
                let b0 = s0.blobs@[blob@];
                assert(s1.blobs@ =~= s0.blobs@.insert(blob@, s1.blobs@[blob@]));
                assert forall|k: u64|
                    #[trigger] s1.blobs@.contains_key(k) implies s1.blob_ok_core(k) by {
                    assert(s0.blob_ok_core(k));
                    if k != blob@ {
                        let b2 = s0.blobs@[k];
                        assert(s0.circle_ok(b0.circle@));
                        assert(s0.circle_ok(b0.sight_circle@));
                        if b2.circle@ == b0.circle@ || b2.circle@ == b0.sight_circle@
                            || b2.sight_circle@ == b0.circle@ || b2.sight_circle@
                            == b0.sight_circle@ {
                            assert(false);
                        }
                    }
                }
                assert forall|k: u64|
                    #[trigger] s1.foods@.contains_key(k) implies s1.food_ok(k) by {
                    assert(s0.food_ok(k));
                    let f = s0.foods@[k];
                    assert(s0.circle_ok(b0.circle@));
                    assert(s0.circle_ok(b0.sight_circle@));
                    if f.circle@ == b0.circle@ || f.circle@ == b0.sight_circle@ {
                        assert(false);
                    }
                }
                assert forall|c: u64|
                    #[trigger] s1.physics.circles@.contains_key(c) implies s1.circle_ok(c) by {
                    assert(s0.circle_ok(c));
                }
            }
        }
    }
}

} // verus!

// Blob accessors that keep the owned circles in sync.

verus! {

impl Blob {
    /// The blob's position.
    pub fn pos(&self) -> (r: Vec2)
        ensures
            r == self.pos,
    {
        self.pos
    }

    /// Moves the blob, keeping both circles at its position.
    pub fn set_pos(&mut self, world: &mut World, value: Vec2)
        requires
            old(world).wf(),
            old(world).circles@.contains_key(old(self).circle@),
            old(world).circles@.contains_key(old(self).sight_circle@),
        ensures
            *final(self) == (Blob { pos: value, ..*old(self) }),
            final(world).wf(),
            final(world).matrix() == old(world).matrix(),
            final(world).circles.next_id() == old(world).circles.next_id(),
            final(world).circles@ == old(world).circles@.insert(
                old(self).circle@,
                (Circle { center: value, ..old(world).circles@[old(self).circle@] }),
            ).insert(
                old(self).sight_circle@,
                (Circle { center: value, ..old(world).circles@[old(self).sight_circle@] }),
            ),
    {
        self.pos = value;
        if let Some(c) = world.circles.get_mut(self.circle) {
            c.center = value;
        } else {
            proof {
                assert(false);
            }
        }
        if let Some(c) = world.circles.get_mut(self.sight_circle) {
            c.center = value;
        } else {
            proof {
                assert(false);
            }
        }
        proof {
            assert(final(world).circles@ =~= old(world).circles@.insert(
                old(self).circle@,
                (Circle { center: value, ..old(world).circles@[old(self).circle@] }),
            ).insert(
                old(self).sight_circle@,
                (Circle { center: value, ..old(world).circles@[old(self).sight_circle@] }),
            ));
        }
    }

    /// The blob's body radius.
    pub fn radius(&self) -> (r: i32)
        ensures
            r == self.radius,
    {
        self.radius
    }

    /// Resizes the blob's body, keeping its body circle in sync.
    pub fn set_radius(&mut self, world: &mut World, value: i32)
        requires
            old(world).wf(),
            old(world).circles@.contains_key(old(self).circle@),
            value >= 0,
        ensures
            *final(self) == (Blob { radius: value, ..*old(self) }),
            final(world).wf(),
            final(world).matrix() == old(world).matrix(),
            final(world).circles.next_id() == old(world).circles.next_id(),
            final(world).circles@ == old(world).circles@.insert(
                old(self).circle@,
                (Circle { radius: value, ..old(world).circles@[old(self).circle@] }),
            ),
    {
        self.radius = value;
        if let Some(c) = world.circles.get_mut(self.circle) {
            c.radius = value;
        } else {
            proof {
                assert(false);
            }
        }
        proof {
            assert(final(world).circles@ =~= old(world).circles@.insert(
                old(self).circle@,
                (Circle { radius: value, ..old(world).circles@[old(self).circle@] }),
            ));
        }
    }

    /// The blob's current heading.
    pub fn direction(&self) -> (r: Vec2)
        ensures
            r == self.direction,
    {
        self.direction
    }

    /// Sets the blob's heading.
    pub fn set_direction(&mut self, _world: &mut World, value: Vec2)
        ensures
            *final(self) == (Blob { direction: value, ..*old(self) }),
            *final(_world) == *old(_world),
    {
        self.direction = value;
    }

    /// The blob's sight radius.
    pub fn sight_depth(&self) -> (r: i32)
        ensures
            r == self.sight_depth,
    {
        self.sight_depth
    }

    /// Resizes the blob's sight, keeping its sight circle in sync.
    pub fn set_sight_depth(&mut self, world: &mut World, value: i32)
        requires
            old(world).wf(),
            old(world).circles@.contains_key(old(self).sight_circle@),
            value >= 0,
        ensures
            *final(self) == (Blob { sight_depth: value, ..*old(self) }),
            final(world).wf(),
            final(world).matrix() == old(world).matrix(),
            final(world).circles.next_id() == old(world).circles.next_id(),
            final(world).circles@ == old(world).circles@.insert(
                old(self).sight_circle@,
                (Circle { radius: value, ..old(world).circles@[old(self).sight_circle@] }),
            ),
    {
        self.sight_depth = value;
        if let Some(c) = world.circles.get_mut(self.sight_circle) {
            c.radius = value;
        } else {
            proof {
                assert(false);
            }
        }
        proof {
            assert(final(world).circles@ =~= old(world).circles@.insert(
                old(self).sight_circle@,
                (Circle { radius: value, ..old(world).circles@[old(self).sight_circle@] }),
            ));
        }
    }
}

} // verus!

// The per-tick pipeline.

verus! {

/// Whether the identifier `k` occurs in a list of keys.
pub open spec fn key_listed<T>(s: Seq<Key<T>>, k: u64) -> bool {
    exists|i: int| 0 <= i < s.len() && (#[trigger] s[i])@ == k
}

/// The blob `k`'s body circle and the food `f`'s circle collide in the
/// tick snapshot of the simulation state `s`.
pub open spec fn body_touches_food(s: Simulation, k: u64, f: u64) -> bool {
    physics::collides_in_world(s.physics, s.blobs@[k].circle@, s.foods@[f].circle@)
}

/// The two blobs' body circles collide in the tick snapshot of the
/// simulation state `s`.
pub open spec fn bodies_touch(s: Simulation, a: u64, b: u64) -> bool {
    physics::collides_in_world(s.physics, s.blobs@[a].circle@, s.blobs@[b].circle@)
}

/// Every live food whose circle the snapshot reports against `body` is in
/// the resolved list.
spec fn resolved_food_list_complete(
    s: Simulation,
    snap: Map<u64, Seq<u64>>,
    body: u64,
    list: Seq<Key<Food>>,
) -> bool {
    forall|f: u64|
        #![trigger s.foods@[f]]
        s.foods@.contains_key(f) && physics::reported(snap, body, s.foods@[f].circle@)
            ==> key_listed(list, f)
}

/// Every entry of the resolved list is a live food whose circle the
/// snapshot reports against `body`.
spec fn resolved_food_list_sound(
    s: Simulation,
    snap: Map<u64, Seq<u64>>,
    body: u64,
    list: Seq<Key<Food>>,
) -> bool {
    forall|w: int|
        0 <= w < list.len() ==> s.foods@.contains_key((#[trigger] list[w])@) && physics::reported(
            snap,
            body,
            s.foods@[list[w]@].circle@,
        )
}

/// In state `s`, blob `k1` defeats blob `k2`: both live and distinct,
/// their body circles collide in the snapshot of the world `w0`, and the
/// combat inequality holds against `k2`'s current hunger.
spec fn combat_defeat(s: Simulation, w0: World, k1: u64, k2: u64) -> bool {
    &&& s.blobs@.contains_key(k1)
    &&& s.blobs@.contains_key(k2)
    &&& k1 != k2
    &&& physics::collides_in_world(w0, s.blobs@[k1].circle@, s.blobs@[k2].circle@)
    &&& defeats_spec(
        s.blobs@[k1].attack as int,
        s.blobs@[k2].defence as int,
        s.blobs@[k2].hunger as int,
        s.blobs@[k2].max_hunger as int,
    )
}

/// Every position of `keys` holding the identifier `k` is marked.
spec fn marked_for(keys: Seq<Key<Blob>>, marked: Seq<Option<Vec2>>, k: u64) -> bool {
    forall|t: int|
        0 <= t < keys.len() && (#[trigger] keys[t])@ == k ==> 0 <= t < marked.len()
            && marked[t] is Some
}

/// What one tick did: which blobs ate, which foods were eaten, which
/// blobs died (by combat or starvation), and the foods spawned at the
/// dead blobs' positions — one per removed blob.
pub struct StepReport {
    pub fed_blobs: Vec<Key<Blob>>,
    pub eaten_foods: Vec<Key<Food>>,
    pub removed_blobs: Vec<Key<Blob>>,
    pub spawned_foods: Vec<Key<Food>>,
}

impl Simulation {
    /// Feeds the blob `bk` once per food in its resolved snapshot list,
    /// attempting to remove each food (with its circle and tag)
    /// afterwards.  A food another blob already ate is gone by then — the
    /// removal is a no-op — but the blob still applies the feeding
    /// formula, exactly as the snapshot promised it a meal.
    #[verifier::loop_isolation(false)]
    fn feed_from_list(
        &mut self,
        bk: Key<Blob>,
        foods_seen: &Vec<Key<Food>>,
        fed: &mut Vec<Key<Blob>>,
        eaten: &mut Vec<Key<Food>>,
    )
        requires
            old(self).wf(),
            old(self).blobs@.contains_key(bk@),
        ensures
            final(self).wf(),
            final(self).size == old(self).size,
            final(self).blobs.next_id() == old(self).blobs.next_id(),
            final(self).foods.next_id() == old(self).foods.next_id(),
            final(self).physics.circles.next_id() == old(self).physics.circles.next_id(),
            forall|k: u64|
                #[trigger] final(self).blobs@.contains_key(k) <==> old(self).blobs@.contains_key(
                    k,
                ),
            forall|k: u64|
                #[trigger] final(self).blobs@.contains_key(k) ==> final(self).blobs@[k] == (Blob {
                    hunger: final(self).blobs@[k].hunger,
                    ..old(self).blobs@[k]
                }) && final(self).blobs@[k].hunger <= old(self).blobs@[k].hunger && (k != bk@
                    ==> final(self).blobs@[k] == old(self).blobs@[k]),
            final(fed)@.len() >= old(fed)@.len(),
            final(fed)@.take(old(fed)@.len() as int) == old(fed)@,
            forall|t: int|
                old(fed)@.len() <= t < final(fed)@.len() ==> (#[trigger] final(fed)@[t])@ == bk@,
            final(fed)@.len() == old(fed)@.len() + foods_seen@.len(),
            final(self).blobs@[bk@].hunger != old(self).blobs@[bk@].hunger ==> final(fed)@.len()
                > old(fed)@.len(),
            final(eaten)@.len() >= old(eaten)@.len(),
            final(eaten)@.take(old(eaten)@.len() as int) == old(eaten)@,
            forall|t: int|
                old(eaten)@.len() <= t < final(eaten)@.len() ==> old(self).foods@.contains_key(
                    (#[trigger] final(eaten)@[t])@,
                ) && !final(self).foods@.contains_key(final(eaten)@[t]@),
            forall|k: u64|
                #[trigger] old(self).foods@.contains_key(k) ==> final(self).foods@.contains_key(k)
                    || key_listed(final(eaten)@.skip(old(eaten)@.len() as int), k),
            forall|k: u64|
                #[trigger] final(self).foods@.contains_key(k) ==> old(self).foods@.contains_key(k)
                    && final(self).foods@[k] == old(self).foods@[k],
    {
        let n = foods_seen.len();
        let ghost base_fed = fed@;
        let ghost base_eaten = eaten@;
        let mut j: usize = 0;
        while j < n
            invariant
                0 <= j <= n,
                self.wf(),
                self.blobs@.contains_key(bk@),
                self.size == old(self).size,
                self.blobs.next_id() == old(self).blobs.next_id(),
                self.foods.next_id() == old(self).foods.next_id(),
                self.physics.circles.next_id() == old(self).physics.circles.next_id(),
                forall|k: u64|
                    #[trigger] self.blobs@.contains_key(k) <==> old(self).blobs@.contains_key(k),
                forall|k: u64|
                    #[trigger] self.blobs@.contains_key(k) ==> self.blobs@[k] == (Blob {
                        hunger: self.blobs@[k].hunger,
                        ..old(self).blobs@[k]
                    }) && self.blobs@[k].hunger <= old(self).blobs@[k].hunger && (k != bk@
                        ==> self.blobs@[k] == old(self).blobs@[k]),
                fed@.len() == base_fed.len() + j,
                self.blobs@[bk@].hunger != old(self).blobs@[bk@].hunger ==> j > 0,
                fed@.take(base_fed.len() as int) == base_fed,
                forall|t: int|
                    base_fed.len() <= t < fed@.len() ==> (#[trigger] fed@[t])@ == bk@,
                eaten@.len() >= base_eaten.len(),
                eaten@.take(base_eaten.len() as int) == base_eaten,
                forall|t: int|
                    base_eaten.len() <= t < eaten@.len() ==> old(self).foods@.contains_key(
                        (#[trigger] eaten@[t])@,
                    ) && !self.foods@.contains_key(eaten@[t]@),
                forall|k: u64|
                    #[trigger] old(self).foods@.contains_key(k) ==> self.foods@.contains_key(k)
                        || key_listed(eaten@.skip(base_eaten.len() as int), k),
                forall|k: u64|
                    #[trigger] self.foods@.contains_key(k) ==> old(self).foods@.contains_key(k)
                        && self.foods@[k] == old(self).foods@[k],
            decreases n - j,
        {
            let fk = foods_seen[j];
            let ghost pre = *self;
            let ghost pre_fed = fed@;
            let ghost pre_eaten = eaten@;
            if let Some(b) = self.blobs.get_mut(bk) {
                b.feed();
            }
            proof {
                let s1 = self;
                assert(s1.blobs@ =~= pre.blobs@.insert(bk@, s1.blobs@[bk@]));
                assert forall|k: u64|
                    #[trigger] s1.blobs@.contains_key(k) implies s1.blob_ok_core(k)
                    && s1.blobs@[k].hunger <= s1.blobs@[k].max_hunger by {
                    assert(pre.blob_ok_core(k));
                }
                assert forall|k: u64| #[trigger] s1.foods@.contains_key(k) implies s1.food_ok(k) by {
                    assert(pre.food_ok(k));
                }
                assert forall|c: u64|
                    #[trigger] s1.physics.circles@.contains_key(c) implies s1.circle_ok(c) by {
                    assert(pre.circle_ok(c));
                }
                assert(s1.wf());
            }
            fed.push(bk);
            let r = self.remove_food(fk);
            match r {
                Some(_) => {
                    eaten.push(fk);
                },
                None => {
                },
            }
            proof {
                assert(fed@.take(base_fed.len() as int) =~= base_fed);
                assert(eaten@.take(base_eaten.len() as int) =~= base_eaten);
                assert forall|k: u64|
                    #[trigger] old(self).foods@.contains_key(k) implies self.foods@.contains_key(
                    k,
                ) || key_listed(eaten@.skip(base_eaten.len() as int), k) by {
                    if !self.foods@.contains_key(k) {
                        if pre.foods@.contains_key(k) {
                            assert(k == fk@);
                            assert(eaten@.last()@ == fk@);
                            assert(eaten@.skip(base_eaten.len() as int)[eaten@.len() - 1
                                - base_eaten.len()]@ == fk@);
                        } else {
                            let w = choose|w: int|
                                0 <= w < pre_eaten.skip(base_eaten.len() as int).len()
                                    && pre_eaten.skip(base_eaten.len() as int)[w]@ == k;
                            assert(eaten@.skip(base_eaten.len() as int)[w]@ == k);
                        }
                    }
                }
            }
            j = j + 1;
        }
    }

    /// Advances the whole simulation by one tick of length `timestep`
    /// time units: computes one collision snapshot, runs perception,
    /// feeding, combat, integration, and lifecycle resolution in that
    /// order, all against the same snapshot.
    ///
    /// Every removed blob spawns exactly one food at its recorded
    /// position, so the report's removal and spawn lists have equal
    /// length.  A blob that did not eat this tick has its hunger
    /// increased by exactly `timestep`; one that ate never gains more.
    #[verifier::loop_isolation(false)]
    pub fn step(&mut self, timestep: u32) -> (report: StepReport)
        requires
            old(self).wf(),
            timestep <= 1048576,
            old(self).physics.circles.next_id() + old(self).blobs@.dom().len() < u64::MAX,
            old(self).foods.next_id() + old(self).blobs@.dom().len() < u64::MAX,
        ensures
            final(self).wf(),
            final(self).size == old(self).size,
            report.removed_blobs@.len() == report.spawned_foods@.len(),
            forall|t1: int, t2: int|
                0 <= t1 < t2 < report.removed_blobs@.len() ==> (
                #[trigger] report.removed_blobs@[t1])@ != (#[trigger] report.removed_blobs@[t2])@,
            forall|t: int|
                0 <= t < report.removed_blobs@.len() ==> old(self).blobs@.contains_key(
                    (#[trigger] report.removed_blobs@[t])@,
                ) && !final(self).blobs@.contains_key(report.removed_blobs@[t]@),
            forall|k: u64|
                #[trigger] final(self).blobs@.contains_key(k) ==> old(self).blobs@.contains_key(k),
            forall|k: u64|
                #[trigger] old(self).blobs@.contains_key(k) ==> final(self).blobs@.contains_key(k)
                    || key_listed(report.removed_blobs@, k),
            forall|t: int|
                0 <= t < report.eaten_foods@.len() ==> old(self).foods@.contains_key(
                    (#[trigger] report.eaten_foods@[t])@,
                ) && !final(self).foods@.contains_key(report.eaten_foods@[t]@),
            forall|k: u64, f: u64|
                #![trigger body_touches_food(*old(self), k, f)]
                old(self).blobs@.contains_key(k) && old(self).foods@.contains_key(f)
                    && body_touches_food(*old(self), k, f) ==> key_listed(report.fed_blobs@, k),
            forall|k: u64|
                #[trigger] final(self).blobs@.contains_key(k) ==> exists|target: Option<Vec2>|
                    (target matches Some(td) ==> dir_wf(td)) && moved_per_integration(
                        old(self).blobs@[k],
                        final(self).blobs@[k],
                        target,
                        timestep as int,
                        final(self).size,
                    ),
            forall|t: int|
                0 <= t < report.spawned_foods@.len() ==> final(self).foods@.contains_key(
                    (#[trigger] report.spawned_foods@[t])@,
                ) && death_spot(
                    old(self).blobs@[report.removed_blobs@[t]@],
                    final(self).foods@[report.spawned_foods@[t]@].pos,
                    timestep as int,
                    final(self).size,
                ),
            forall|k1: u64, k2: u64|
                #![trigger bodies_touch(*old(self), k1, k2)]
                old(self).blobs@.contains_key(k1) && old(self).blobs@.contains_key(k2) && k1 != k2
                    && bodies_touch(*old(self), k1, k2) && (old(self).blobs@[k1].attack as int)
                    * (old(self).blobs@[k2].max_hunger as int) > (old(
                    self,
                ).blobs@[k2].defence as int) * (old(self).blobs@[k2].max_hunger as int)
                    ==> key_listed(report.removed_blobs@, k2),
            forall|k1: u64, k2: u64|
                #![trigger bodies_touch(*old(self), k1, k2)]
                old(self).blobs@.contains_key(k1) && old(self).blobs@.contains_key(k2) && k1 != k2
                    && bodies_touch(*old(self), k1, k2) && (forall|f: u64|
                    !(old(self).foods@.contains_key(f) && #[trigger] body_touches_food(
                        *old(self),
                        k2,
                        f,
                    ))) && defeats_spec(
                    old(self).blobs@[k1].attack as int,
                    old(self).blobs@[k2].defence as int,
                    old(self).blobs@[k2].hunger as int,
                    old(self).blobs@[k2].max_hunger as int,
                ) ==> key_listed(report.removed_blobs@, k2),
            forall|k: u64|
                #[trigger] final(self).blobs@.contains_key(k) ==> ({
                    let b0 = old(self).blobs@[k];
                    let b1 = final(self).blobs@[k];
                    &&& b1.max_hunger == b0.max_hunger
                    &&& b1.hunger <= b0.hunger + timestep
                    &&& (!key_listed(report.fed_blobs@, k) ==> b1.hunger == b0.hunger + timestep)
                    &&& b1.color == b0.color
                    &&& b1.name == b0.name
                    &&& b1.alive_time == (if b0.alive_time + timestep <= u64::MAX {
                        b0.alive_time + timestep
                    } else {
                        u64::MAX as int
                    })
                    &&& 0 <= b1.pos.x <= final(self).size.x
                    &&& 0 <= b1.pos.y <= final(self).size.y
                }),
            forall|k: u64|
                #[trigger] final(self).foods@.contains_key(k) ==> old(self).foods@.contains_key(k)
                    || key_listed(report.spawned_foods@, k),
            forall|k: u64|
                #[trigger] old(self).foods@.contains_key(k) ==> final(self).foods@.contains_key(k)
                    || key_listed(report.eaten_foods@, k),
    {
        let sz = self.size;
        // Phase 1: one collision snapshot for the whole tick.
        let ghost w0 = self.physics;
        let collisions = self.physics.collisions();
        // Collect the live blob keys once; all phases walk this list.
        let mut blob_keys: Vec<Key<Blob>> = Vec::new();
        {
            let it = self.blobs.iter();
            let n0 = it.len();
            let mut idx: usize = 0;
            while idx < n0
                invariant
                    0 <= idx <= n0,
                    n0 == it@.len(),
                    blob_keys@.len() == idx,
                    forall|t: int| 0 <= t < idx ==> (#[trigger] blob_keys@[t]) == it@[t].0,
                decreases n0 - idx,
            {
                blob_keys.push(it[idx].0);
                idx = idx + 1;
            }
            proof {
                assert(forall|t1: int, t2: int|
                    0 <= t1 < t2 < blob_keys@.len() ==> (#[trigger] blob_keys@[t1])@ != (
                    #[trigger] blob_keys@[t2])@);
                assert(forall|t: int|
                    0 <= t < blob_keys@.len() ==> old(self).blobs@.contains_key(
                        (#[trigger] blob_keys@[t])@,
                    ));
                assert forall|k: u64| #[trigger] old(self).blobs@.contains_key(k) implies
                    key_listed(blob_keys@, k) by {
                    let i = choose|i: int| 0 <= i < it@.len() && it@[i].0@ == k;
                    assert(blob_keys@[i]@ == k);
                }
            }
        }
        let n = blob_keys.len();
        // Phase 2: perception — one steering target per blob.
        let mut targets: Vec<Option<Vec2>> = Vec::new();
        let mut i: usize = 0;
        while i < n
            invariant
                0 <= i <= n,
                targets@.len() == i,
                forall|t: int|
                    0 <= t < i ==> ((#[trigger] targets@[t]) matches Some(d) ==> dir_wf(d)),
                *self == *old(self),
            decreases n - i,
        {
            let bk = blob_keys[i];
            let mut seen: Vec<SeenObject> = Vec::new();
            let target: Option<Vec2> = match self.blobs.get(bk) {
                Some(b) => {
                    if let Some(partner_list) = collisions.get(&b.sight_circle) {
                        let pn = partner_list.len();
                        let mut pj: usize = 0;
                        while pj < pn
                            invariant
                                0 <= pj <= pn,
                                pn == partner_list@.len(),
                                *self == *old(self),
                                self.blobs@.contains_key(bk@),
                                b == self.blobs@[bk@],
                            decreases pn - pj,
                        {
                            let ck = partner_list[pj];
                            if let Some(circle) = self.physics.circles.get(ck) {
                                let dx: i64 = circle.center.x as i64 - b.pos.x as i64;
                                let dy: i64 = circle.center.y as i64 - b.pos.y as i64;
                                let in_view = (b.direction.x == 0 && b.direction.y == 0)
                                    || cos_at_least(
                                    b.direction.x as i64,
                                    b.direction.y as i64,
                                    dx,
                                    dy,
                                    b.pov,
                                );
                                if in_view {
                                    let obj = match self.objects.get(ck.id()) {
                                        Some(o) => Some(*o),
                                        None => None,
                                    };
                                    match obj {
                                        Some(CircleObject::Blob(bk2)) => {
                                            if let Some(b2) = self.blobs.get(bk2) {
                                                seen.push(
                                                    SeenObject {
                                                        color: b2.color,
                                                        pos: circle.center,
                                                    },
                                                );
                                            }
                                        },
                                        Some(CircleObject::Food(_)) => {
                                            seen.push(
                                                SeenObject {
                                                    color: food_color(),
                                                    pos: circle.center,
                                                },
                                            );
                                        },
                                        _ => {
                                        },
                                    }
                                }
                            }
                            pj = pj + 1;
                        }
                    }
                    let bs = b.prepare_step(&seen);
                    bs.target_direction
                },
                None => None,
            };
            targets.push(target);
            i = i + 1;
        }
        // Phase 3a: resolve each blob's food partners from the pristine
        // snapshot state, before anything is removed.
        let mut food_lists: Vec<Vec<Key<Food>>> = Vec::new();
        let mut ia: usize = 0;
        while ia < n
            invariant
                0 <= ia <= n,
                food_lists@.len() == ia,
                *self == *old(self),
                forall|t: int|
                    0 <= t < ia ==> resolved_food_list_complete(
                        *old(self),
                        collisions@,
                        old(self).blobs@[(#[trigger] blob_keys@[t])@].circle@,
                        food_lists@[t]@,
                    ) && resolved_food_list_sound(
                        *old(self),
                        collisions@,
                        old(self).blobs@[blob_keys@[t]@].circle@,
                        food_lists@[t]@,
                    ),
            decreases n - ia,
        {
            let bk = blob_keys[ia];
            let mut flist: Vec<Key<Food>> = Vec::new();
            match self.blobs.get(bk) {
                Some(b) => {
                    if let Some(partner_list) = collisions.get(&b.circle) {
                        let pn = partner_list.len();
                        let mut pj: usize = 0;
                        while pj < pn
                            invariant
                                0 <= pj <= pn,
                                pn == partner_list@.len(),
                                *self == *old(self),
                                self.blobs@.contains_key(bk@),
                                b == self.blobs@[bk@],
                                forall|f: u64|
                                    #![trigger old(self).foods@[f]]
                                    old(self).foods@.contains_key(f) && (exists|w: int|
                                        0 <= w < pj && (#[trigger] partner_list@[w])@ == old(
                                            self,
                                        ).foods@[f].circle@) ==> key_listed(flist@, f),
                                resolved_food_list_sound(
                                    *old(self),
                                    collisions@,
                                    old(self).blobs@[bk@].circle@,
                                    flist@,
                                ),
                            decreases pn - pj,
                        {
                            let ck = partner_list[pj];
                            let ghost pre_flist = flist@;
                            let obj = match self.objects.get(ck.id()) {
                                Some(o) => Some(*o),
                                None => None,
                            };
                            if let Some(CircleObject::Food(fk)) = obj {
                                proof {
                                    assert(old(self).circle_ok(ck@));
                                    assert(physics::key_ids(partner_list@)[pj as int] == ck@);
                                    assert(collisions@[old(self).blobs@[bk@].circle@].contains(
                                        ck@,
                                    ));
                                }
                                flist.push(fk);
                                proof {
                                    assert forall|w: int|
                                        0 <= w < flist@.len() implies old(
                                        self,
                                    ).foods@.contains_key((#[trigger] flist@[w])@)
                                        && physics::reported(
                                        collisions@,
                                        old(self).blobs@[bk@].circle@,
                                        old(self).foods@[flist@[w]@].circle@,
                                    ) by {
                                        if w < flist@.len() - 1 {
                                            assert(flist@[w] == pre_flist[w]);
                                        } else {
                                            assert(flist@[w] == fk);
                                        }
                                    }
                                }
                            }
                            proof {
                                assert forall|f: u64|
                                    #![trigger old(self).foods@[f]]
                                    old(self).foods@.contains_key(f) && (exists|w: int|
                                        0 <= w < pj + 1 && (#[trigger] partner_list@[w])@ == old(
                                            self,
                                        ).foods@[f].circle@) implies key_listed(flist@, f) by {
                                    let w = choose|w: int|
                                        0 <= w < pj + 1 && (#[trigger] partner_list@[w])@ == old(
                                            self,
                                        ).foods@[f].circle@;
                                    if w < pj {
                                        let v = choose|v: int|
                                            0 <= v < pre_flist.len() && pre_flist[v]@ == f;
                                        assert(flist@[v]@ == f);
                                    } else {
                                        assert(old(self).food_ok(f));
                                        assert(flist@.last()@ == f);
                                    }
                                }
                            }
                            pj = pj + 1;
                        }
                        proof {
                            assert forall|f: u64|
                                #![trigger old(self).foods@[f]]
                                old(self).foods@.contains_key(f) && physics::reported(
                                    collisions@,
                                    old(self).blobs@[bk@].circle@,
                                    old(self).foods@[f].circle@,
                                ) implies key_listed(flist@, f) by {
                                let fc = old(self).foods@[f].circle@;
                                assert(physics::key_ids(partner_list@) == collisions@[old(
                                    self,
                                ).blobs@[bk@].circle@]);
                                assert(physics::key_ids(partner_list@).contains(fc));
                                let w = choose|w: int|
                                    0 <= w < physics::key_ids(partner_list@).len()
                                        && physics::key_ids(partner_list@)[w] == fc;
                                assert(partner_list@[w]@ == fc);
                            }
                        }
                    } else {
                        proof {
                            assert forall|f: u64|
                                #![trigger old(self).foods@[f]]
                                old(self).foods@.contains_key(f) && physics::reported(
                                    collisions@,
                                    old(self).blobs@[bk@].circle@,
                                    old(self).foods@[f].circle@,
                                ) implies key_listed(flist@, f) by {
                                assert(collisions@.contains_key(old(self).blobs@[bk@].circle@));
                            }
                        }
                    }
                },
                None => {
                    proof {
                        assert(false);
                    }
                },
            }
            food_lists.push(flist);
            ia = ia + 1;
        }
        // Phase 3b: feeding, against the resolved lists.
        let mut fed: Vec<Key<Blob>> = Vec::new();
        let mut eaten: Vec<Key<Food>> = Vec::new();
        let mut i2: usize = 0;
        while i2 < n
            invariant
                0 <= i2 <= n,
                n == food_lists@.len(),
                self.wf(),
                self.size == old(self).size,
                self.blobs.next_id() == old(self).blobs.next_id(),
                self.foods.next_id() == old(self).foods.next_id(),
                self.physics.circles.next_id() == old(self).physics.circles.next_id(),
                forall|k: u64|
                    #[trigger] self.blobs@.contains_key(k) <==> old(self).blobs@.contains_key(k),
                forall|k: u64|
                    #[trigger] self.blobs@.contains_key(k) ==> self.blobs@[k] == (Blob {
                        hunger: self.blobs@[k].hunger,
                        ..old(self).blobs@[k]
                    }) && self.blobs@[k].hunger <= old(self).blobs@[k].hunger,
                forall|k: u64|
                    #[trigger] self.blobs@.contains_key(k) && !key_listed(fed@, k)
                        ==> self.blobs@[k].hunger == old(self).blobs@[k].hunger,
                forall|t: int|
                    0 <= t < i2 && food_lists@[t]@.len() > 0 ==> key_listed(
                        fed@,
                        (#[trigger] blob_keys@[t])@,
                    ),
                forall|t: int|
                    0 <= t < i2 && food_lists@[t]@.len() == 0 ==> self.blobs@[(
                    #[trigger] blob_keys@[t])@].hunger == old(self).blobs@[blob_keys@[t]@].hunger,
                forall|t: int|
                    i2 <= t < n ==> self.blobs@[(#[trigger] blob_keys@[t])@].hunger == old(
                        self,
                    ).blobs@[blob_keys@[t]@].hunger,
                forall|t: int|
                    0 <= t < eaten@.len() ==> old(self).foods@.contains_key(
                        (#[trigger] eaten@[t])@,
                    ) && !self.foods@.contains_key(eaten@[t]@),
                forall|k: u64|
                    #[trigger] old(self).foods@.contains_key(k) ==> self.foods@.contains_key(k)
                        || key_listed(eaten@, k),
                forall|k: u64|
                    #[trigger] self.foods@.contains_key(k) ==> old(self).foods@.contains_key(k)
                        && self.foods@[k] == old(self).foods@[k],
            decreases n - i2,
        {
            let bk = blob_keys[i2];
            let ghost pre = *self;
            let ghost pre_fed = fed@;
            let ghost pre_eaten = eaten@;
            self.feed_from_list(bk, &food_lists[i2], &mut fed, &mut eaten);
            proof {
                assert(fed@.len() == pre_fed.len() + food_lists@[i2 as int]@.len());
                assert forall|k: u64|
                    #[trigger] self.blobs@.contains_key(k) && !key_listed(fed@, k)
                        implies self.blobs@[k].hunger == old(self).blobs@[k].hunger by {
                    assert forall|t: int| 0 <= t < pre_fed.len() implies (
                    #[trigger] pre_fed[t])@ != k by {
                        assert(fed@.take(pre_fed.len() as int)[t] == pre_fed[t]);
                        assert(fed@[t] == pre_fed[t]);
                    }
                    assert(!key_listed(pre_fed, k));
                    if k == bk@ {
                        if self.blobs@[k].hunger != pre.blobs@[k].hunger {
                            assert(fed@.len() > pre_fed.len());
                            assert(fed@[fed@.len() - 1]@ == bk@);
                            assert(key_listed(fed@, k));
                        }
                    }
                }
                assert forall|t: int|
                    0 <= t < i2 + 1 && food_lists@[t]@.len() == 0 implies self.blobs@[(
                #[trigger] blob_keys@[t])@].hunger == old(self).blobs@[blob_keys@[t]@].hunger by {
                    if t < i2 {
                        assert(blob_keys@[t]@ != bk@);
                        assert(self.blobs@.contains_key(blob_keys@[t]@));
                        assert(self.blobs@[blob_keys@[t]@] == pre.blobs@[blob_keys@[t]@]);
                    } else {
                        assert(fed@.len() == pre_fed.len());
                        assert(self.blobs@.contains_key(bk@));
                        assert(self.blobs@[bk@].hunger == pre.blobs@[bk@].hunger);
                    }
                }
                assert forall|t: int|
                    i2 + 1 <= t < n implies self.blobs@[(#[trigger] blob_keys@[t])@].hunger == old(
                    self,
                ).blobs@[blob_keys@[t]@].hunger by {
                    assert(blob_keys@[t]@ != bk@);
                    assert(self.blobs@.contains_key(blob_keys@[t]@));
                    assert(self.blobs@[blob_keys@[t]@] == pre.blobs@[blob_keys@[t]@]);
                }
                assert forall|t: int|
                    0 <= t < i2 + 1 && food_lists@[t]@.len() > 0 implies key_listed(
                    fed@,
                    (#[trigger] blob_keys@[t])@,
                ) by {
                    if t < i2 {
                        let v = choose|v: int|
                            0 <= v < pre_fed.len() && pre_fed[v]@ == blob_keys@[t]@;
                        assert(fed@.take(pre_fed.len() as int)[v] == pre_fed[v]);
                        assert(fed@[v]@ == blob_keys@[t]@);
                    } else {
                        assert(fed@.len() > pre_fed.len());
                        assert(fed@[fed@.len() - 1]@ == bk@);
                    }
                }
                assert forall|t: int| 0 <= t < eaten@.len() implies old(
                    self,
                ).foods@.contains_key((#[trigger] eaten@[t])@) && !self.foods@.contains_key(
                    eaten@[t]@,
                ) by {
                    if t < pre_eaten.len() {
                        assert(eaten@.take(pre_eaten.len() as int)[t] == pre_eaten[t]);
                        assert(eaten@[t] == pre_eaten[t]);
                        if self.foods@.contains_key(eaten@[t]@) {
                            assert(pre.foods@.contains_key(eaten@[t]@));
                        }
                    } else {
                        assert(pre.foods@.contains_key(eaten@[t]@));
                    }
                }
                assert forall|k: u64|
                    #[trigger] old(self).foods@.contains_key(k) implies self.foods@.contains_key(
                    k,
                ) || key_listed(eaten@, k) by {
                    if !self.foods@.contains_key(k) {
                        if pre.foods@.contains_key(k) {
                            let w = choose|w: int|
                                0 <= w < eaten@.skip(pre_eaten.len() as int).len() && (
                                eaten@.skip(pre_eaten.len() as int)[w])@ == k;
                            assert(eaten@[w + pre_eaten.len()]@ == k);
                        } else {
                            let w = choose|w: int|
                                0 <= w < pre_eaten.len() && pre_eaten[w]@ == k;
                            assert(eaten@.take(pre_eaten.len() as int)[w] == pre_eaten[w]);
                            assert(eaten@[w]@ == k);
                        }
                    }
                }
            }
            i2 = i2 + 1;
        }
        proof {
            assert forall|k: u64, f: u64|
                #![trigger body_touches_food(*old(self), k, f)]
                old(self).blobs@.contains_key(k) && old(self).foods@.contains_key(f)
                    && body_touches_food(*old(self), k, f) implies key_listed(fed@, k) by {
                assert(physics::reported(
                    collisions@,
                    old(self).blobs@[k].circle@,
                    old(self).foods@[f].circle@,
                ));
                let t = choose|t: int| 0 <= t < n && blob_keys@[t]@ == k;
                assert(resolved_food_list_complete(
                    *old(self),
                    collisions@,
                    old(self).blobs@[(blob_keys@[t])@].circle@,
                    food_lists@[t]@,
                ));
                assert(key_listed(food_lists@[t]@, f));
                assert(food_lists@[t]@.len() > 0);
            }
        }
        let ghost mid = *self;
        let (removed, spawned) = self.finish_step(
            timestep,
            sz,
            &collisions,
            &blob_keys,
            &targets,
            Ghost(w0),
        );
        proof {
            assert forall|k: u64|
                #[trigger] final(self).blobs@.contains_key(k) implies ({
                    let b0 = old(self).blobs@[k];
                    let b1 = final(self).blobs@[k];
                    &&& b1.max_hunger == b0.max_hunger
                    &&& b1.hunger <= b0.hunger + timestep
                    &&& (!key_listed(fed@, k) ==> b1.hunger == b0.hunger + timestep)
                    &&& b1.color == b0.color
                    &&& b1.name == b0.name
                }) by {
                assert(mid.blobs@.contains_key(k));
            }
            assert forall|k: u64|
                #[trigger] old(self).blobs@.contains_key(k) implies final(self).blobs@.contains_key(
                k,
            ) || key_listed(removed@, k) by {
                assert(mid.blobs@.contains_key(k));
            }
            assert(w0 == old(self).physics);
            assert forall|k: u64| #[trigger] final(self).blobs@.contains_key(k) implies exists|
                target: Option<Vec2>,
            |
                (target matches Some(td) ==> dir_wf(td)) && moved_per_integration(
                    old(self).blobs@[k],
                    final(self).blobs@[k],
                    target,
                    timestep as int,
                    final(self).size,
                ) by {
                assert(mid.blobs@.contains_key(k));
                assert(old(self).blobs@.contains_key(k));
                let t = choose|t: int| 0 <= t < n && (blob_keys@[t])@ == k;
                assert(moved_per_integration(
                    mid.blobs@[k],
                    final(self).blobs@[k],
                    targets@[t],
                    timestep as int,
                    sz,
                ));
                lemma_moved_transfer(
                    mid.blobs@[k],
                    old(self).blobs@[k],
                    final(self).blobs@[k],
                    targets@[t],
                    timestep as int,
                    sz,
                );
                assert(targets@[t] matches Some(td) ==> dir_wf(td));
            }
            assert forall|t: int|
                0 <= t < spawned@.len() implies final(self).foods@.contains_key(
                (#[trigger] spawned@[t])@,
            ) && death_spot(
                old(self).blobs@[removed@[t]@],
                final(self).foods@[spawned@[t]@].pos,
                timestep as int,
                final(self).size,
            ) by {
                assert(mid.blobs@.contains_key(removed@[t]@));
                assert(old(self).blobs@.contains_key(removed@[t]@));
                lemma_death_spot_transfer(
                    mid.blobs@[removed@[t]@],
                    old(self).blobs@[removed@[t]@],
                    final(self).foods@[spawned@[t]@].pos,
                    timestep as int,
                    sz,
                );
            }
            assert forall|k1: u64, k2: u64|
                #![trigger bodies_touch(*old(self), k1, k2)]
                old(self).blobs@.contains_key(k1) && old(self).blobs@.contains_key(k2) && k1 != k2
                    && bodies_touch(*old(self), k1, k2) && (old(self).blobs@[k1].attack as int)
                    * (old(self).blobs@[k2].max_hunger as int) > (old(
                    self,
                ).blobs@[k2].defence as int) * (old(self).blobs@[k2].max_hunger as int)
                    implies key_listed(removed@, k2) by {
                assert(mid.blobs@.contains_key(k1) && mid.blobs@.contains_key(k2));
                assert(mid.blobs@[k1].circle == old(self).blobs@[k1].circle);
                assert(mid.blobs@[k2].circle == old(self).blobs@[k2].circle);
                let a = mid.blobs@[k1].attack as int;
                let d = mid.blobs@[k2].defence as int;
                let h = mid.blobs@[k2].hunger as int;
                let mx = mid.blobs@[k2].max_hunger as int;
                assert(0 <= h && h <= mx && 0 <= d);
                assert(a * mx > d * (mx - h)) by (nonlinear_arith)
                    requires
                        a * mx > d * mx,
                        0 <= d,
                        0 <= mx - h <= mx,
                ;
                assert(combat_defeat(mid, w0, k1, k2));
                assert(mid.blobs@[k1] == mid.blobs@[k1] && mid.blobs@[k2] == mid.blobs@[k2]);
            }
            assert forall|k1: u64, k2: u64|
                #![trigger bodies_touch(*old(self), k1, k2)]
                old(self).blobs@.contains_key(k1) && old(self).blobs@.contains_key(k2) && k1 != k2
                    && bodies_touch(*old(self), k1, k2) && (forall|f: u64|
                    !(old(self).foods@.contains_key(f) && #[trigger] body_touches_food(
                        *old(self),
                        k2,
                        f,
                    ))) && defeats_spec(
                    old(self).blobs@[k1].attack as int,
                    old(self).blobs@[k2].defence as int,
                    old(self).blobs@[k2].hunger as int,
                    old(self).blobs@[k2].max_hunger as int,
                ) implies key_listed(removed@, k2) by {
                let t2 = choose|t: int| 0 <= t < n && (blob_keys@[t])@ == k2;
                assert(resolved_food_list_sound(
                    *old(self),
                    collisions@,
                    old(self).blobs@[(blob_keys@[t2])@].circle@,
                    food_lists@[t2]@,
                ));
                if food_lists@[t2]@.len() > 0 {
                    let f = food_lists@[t2]@[0]@;
                    assert(old(self).foods@.contains_key(f));
                    assert(physics::reported(
                        collisions@,
                        old(self).blobs@[k2].circle@,
                        old(self).foods@[f].circle@,
                    ));
                    assert(body_touches_food(*old(self), k2, f));
                    assert(false);
                }
                assert(mid.blobs@[k2].hunger == old(self).blobs@[k2].hunger);
                assert(mid.blobs@.contains_key(k1) && mid.blobs@.contains_key(k2));
                assert(mid.blobs@[k1].circle == old(self).blobs@[k1].circle);
                assert(mid.blobs@[k2].circle == old(self).blobs@[k2].circle);
                assert(combat_defeat(mid, w0, k1, k2));
                assert(mid.blobs@[k1] == mid.blobs@[k1] && mid.blobs@[k2] == mid.blobs@[k2]);
            }
            assert forall|t: int|
                0 <= t < eaten@.len() implies old(self).foods@.contains_key(
                (#[trigger] eaten@[t])@,
            ) && !final(self).foods@.contains_key(eaten@[t]@) by {
                old(self).foods.lemma_keys_below_next();
                if final(self).foods@.contains_key(eaten@[t]@) {
                    assert(!mid.foods@.contains_key(eaten@[t]@));
                    let w = choose|w: int| 0 <= w < spawned@.len() && spawned@[w]@ == eaten@[t]@;
                    assert(spawned@[w]@ >= mid.foods.next_id());
                }
            }
        }
        StepReport { fed_blobs: fed, eaten_foods: eaten, removed_blobs: removed, spawned_foods: spawned }
    }
}

} // verus!

// The back half of the tick: combat, integration and lifecycle resolution.

verus! {

impl Simulation {
    /// Runs combat marking, integration and lifecycle resolution over the
    /// listed blobs, and returns the removed blobs and the foods spawned
    /// at their recorded positions, in matching order.
    #[verifier::loop_isolation(false)]
    fn finish_step(
        &mut self,
        timestep: u32,
        sz: Vec2,
        collisions: &CircleCollisions,
        blob_keys: &Vec<Key<Blob>>,
        targets: &Vec<Option<Vec2>>,
        Ghost(w0): Ghost<World>,
    ) -> (r: (Vec<Key<Blob>>, Vec<Key<Food>>))
        requires
            old(self).wf(),
            collisions.wf(),
            forall|a: u64, b: u64|
                #[trigger] physics::reported(collisions@, a, b) <==> physics::collides_in_world(
                    w0,
                    a,
                    b,
                ),
            timestep <= 1048576,
            sz == old(self).size,
            targets@.len() == blob_keys@.len(),
            forall|t: int|
                0 <= t < targets@.len() ==> ((#[trigger] targets@[t]) matches Some(d) ==> dir_wf(
                    d,
                )),
            forall|t1: int, t2: int|
                0 <= t1 < t2 < blob_keys@.len() ==> (#[trigger] blob_keys@[t1])@ != (
                #[trigger] blob_keys@[t2])@,
            forall|t: int|
                0 <= t < blob_keys@.len() ==> old(self).blobs@.contains_key(
                    (#[trigger] blob_keys@[t])@,
                ),
            forall|k: u64|
                #[trigger] old(self).blobs@.contains_key(k) ==> key_listed(blob_keys@, k),
            old(self).physics.circles.next_id() + blob_keys@.len() < u64::MAX,
            old(self).foods.next_id() + blob_keys@.len() < u64::MAX,
        ensures
            final(self).wf(),
            final(self).size == old(self).size,
            r.0@.len() == r.1@.len(),
            forall|k1: u64, k2: u64|
                #![trigger old(self).blobs@[k1], old(self).blobs@[k2]]
                combat_defeat(*old(self), w0, k1, k2) ==> key_listed(r.0@, k2),
            forall|t1: int, t2: int|
                0 <= t1 < t2 < r.0@.len() ==> (#[trigger] r.0@[t1])@ != (#[trigger] r.0@[t2])@,
            forall|t: int|
                0 <= t < r.0@.len() ==> old(self).blobs@.contains_key((#[trigger] r.0@[t])@)
                    && !final(self).blobs@.contains_key(r.0@[t]@),
            forall|k: u64|
                #[trigger] final(self).blobs@.contains_key(k) ==> old(self).blobs@.contains_key(k),
            forall|k: u64|
                #[trigger] old(self).blobs@.contains_key(k) ==> final(self).blobs@.contains_key(k)
                    || key_listed(r.0@, k),
            forall|k: u64|
                #[trigger] final(self).blobs@.contains_key(k) ==> ({
                    let b0 = old(self).blobs@[k];
                    let b1 = final(self).blobs@[k];
                    &&& b1.max_hunger == b0.max_hunger
                    &&& b1.hunger == b0.hunger + timestep
                    &&& b1.color == b0.color
                    &&& b1.name == b0.name
                    &&& b1.alive_time == (if b0.alive_time + timestep <= u64::MAX {
                        b0.alive_time + timestep
                    } else {
                        u64::MAX as int
                    })
                    &&& 0 <= b1.pos.x <= old(self).size.x
                    &&& 0 <= b1.pos.y <= old(self).size.y
                }),
            forall|k: u64|
                #[trigger] final(self).foods@.contains_key(k) ==> old(self).foods@.contains_key(k)
                    || key_listed(r.1@, k),
            forall|t: int|
                0 <= t < r.1@.len() ==> (#[trigger] r.1@[t])@ >= old(self).foods.next_id(),
            forall|t: int|
                0 <= t < blob_keys@.len() && final(self).blobs@.contains_key(
                    (#[trigger] blob_keys@[t])@,
                ) ==> moved_per_integration(
                    old(self).blobs@[blob_keys@[t]@],
                    final(self).blobs@[blob_keys@[t]@],
                    targets@[t],
                    timestep as int,
                    sz,
                ),
            forall|t: int|
                0 <= t < r.1@.len() ==> final(self).foods@.contains_key((#[trigger] r.1@[t])@)
                    && death_spot(
                    old(self).blobs@[r.0@[t]@],
                    final(self).foods@[r.1@[t]@].pos,
                    timestep as int,
                    sz,
                ),
            forall|k: u64|
                #[trigger] old(self).foods@.contains_key(k) ==> final(self).foods@.contains_key(
                    k,
                ),
    {
        let n = blob_keys.len();
        // Combat: mark each defeated blob (by index into the key list)
        // with its position at the moment of the fight.
        let mut marked: Vec<Option<Vec2>> = Vec::new();
        let mut i: usize = 0;
        while i < n
            invariant
                0 <= i <= n,
                marked@.len() == i,
                forall|q: int| 0 <= q < i ==> (#[trigger] marked@[q]) is None,
            decreases n - i,
        {
            marked.push(None);
            i = i + 1;
        }
        let mut i2: usize = 0;
        while i2 < n
            invariant
                0 <= i2 <= n,
                n == blob_keys@.len(),
                marked@.len() == n,
                *self == *old(self),
                forall|t: int|
                    0 <= t < n ==> ((#[trigger] marked@[t]) matches Some(p) ==> p == old(
                        self,
                    ).blobs@[blob_keys@[t]@].pos),
                forall|t1: int, k2: u64|
                    #![trigger blob_keys@[t1], old(self).blobs@[k2]]
                    0 <= t1 < i2 && combat_defeat(*old(self), w0, (blob_keys@[t1])@, k2)
                        ==> marked_for(blob_keys@, marked@, k2),
            decreases n - i2,
        {
            let bk = blob_keys[i2];
            let body_circle = match self.blobs.get(bk) {
                Some(b) => Some(b.circle),
                None => None,
            };
            if let Some(bc) = body_circle {
                if let Some(partner_list) = collisions.get(&bc) {
                    let pn = partner_list.len();
                    let mut pj: usize = 0;
                    while pj < pn
                        invariant
                            0 <= pj <= pn,
                            pn == partner_list@.len(),
                            n == blob_keys@.len(),
                            marked@.len() == n,
                            *self == *old(self),
                            self.blobs@.contains_key(bk@),
                            bc == self.blobs@[bk@].circle,
                            physics::key_ids(partner_list@) == collisions@[bc@],
                            collisions@.contains_key(bc@),
                forall|t: int|
                    0 <= t < n ==> ((#[trigger] marked@[t]) matches Some(p) ==> p == old(
                        self,
                    ).blobs@[blob_keys@[t]@].pos),
                            forall|t1: int, k2: u64|
                                #![trigger blob_keys@[t1], old(self).blobs@[k2]]
                                0 <= t1 < i2 && combat_defeat(
                                    *old(self),
                                    w0,
                                    (blob_keys@[t1])@,
                                    k2,
                                ) ==> marked_for(blob_keys@, marked@, k2),
                            forall|k2: u64|
                                #![trigger old(self).blobs@[k2]]
                                combat_defeat(*old(self), w0, bk@, k2) && (exists|w: int|
                                    0 <= w < pj && (#[trigger] partner_list@[w])@ == old(
                                        self,
                                    ).blobs@[k2].circle@) ==> marked_for(blob_keys@, marked@, k2),
                        decreases pn - pj,
                    {
                        let ck = partner_list[pj];
                        let ghost pre_marked = marked@;
                        let obj = match self.objects.get(ck.id()) {
                            Some(o) => Some(*o),
                            None => None,
                        };
                        if let Some(CircleObject::Blob(bk2)) = obj {
                            if bk2.id() != bk.id() {
                                let defeated_second = match (self.blobs.get(bk), self.blobs.get(
                                    bk2,
                                )) {
                                    (Some(b1), Some(b2)) => Some((defeats(b1, b2), defeats(b2, b1), b1.pos, b2.pos)),
                                    _ => None,
                                };
                                if let Some((first_wins, second_wins, pos1, pos2)) = defeated_second {
                                    if first_wins {
                                        mark_index(&mut marked, blob_keys, bk2, pos2);
                                    }
                                    if second_wins {
                                        mark_index(&mut marked, blob_keys, bk, pos1);
                                    }
                                }
                            }
                        }
                        proof {
                            assert forall|t: int|
                                0 <= t < n && pre_marked[t] is Some implies marked@[t] is Some by {
                                assert(blob_keys@[t] == blob_keys@[t]);
                            }
                            assert forall|t: int|
                                0 <= t < n implies ((#[trigger] marked@[t]) matches Some(p) ==> p
                                == old(self).blobs@[blob_keys@[t]@].pos) by {
                                assert(blob_keys@[t] == blob_keys@[t]);
                            }
                            assert forall|k2: u64|
                                #![trigger old(self).blobs@[k2]]
                                combat_defeat(*old(self), w0, bk@, k2) && (exists|w: int|
                                    0 <= w < pj + 1 && (#[trigger] partner_list@[w])@ == old(
                                        self,
                                    ).blobs@[k2].circle@) implies marked_for(
                                blob_keys@,
                                marked@,
                                k2,
                            ) by {
                                let w = choose|w: int|
                                    0 <= w < pj + 1 && (#[trigger] partner_list@[w])@ == old(
                                        self,
                                    ).blobs@[k2].circle@;
                                if w < pj {
                                    assert(marked_for(blob_keys@, pre_marked, k2));
                                } else {
                                    assert(ck@ == old(self).blobs@[k2].circle@);
                                    assert(old(self).blob_ok_core(k2));
                                    assert(old(self).objects@[ck@] matches CircleObject::Blob(b2k)
                                        && b2k@ == k2);
                                }
                            }
                            assert forall|t1: int, k2: u64|
                                #![trigger blob_keys@[t1], old(self).blobs@[k2]]
                                0 <= t1 < i2 && combat_defeat(
                                    *old(self),
                                    w0,
                                    (blob_keys@[t1])@,
                                    k2,
                                ) implies marked_for(blob_keys@, marked@, k2) by {
                                assert(marked_for(blob_keys@, pre_marked, k2));
                            }
                        }
                        pj = pj + 1;
                    }
                    proof {
                        assert forall|k2: u64|
                            #![trigger old(self).blobs@[k2]]
                            combat_defeat(*old(self), w0, bk@, k2) implies marked_for(
                            blob_keys@,
                            marked@,
                            k2,
                        ) by {
                            assert(physics::reported(collisions@, bc@, old(self).blobs@[k2].circle@));
                            assert(collisions@[bc@].contains(old(self).blobs@[k2].circle@));
                            let w = choose|w: int|
                                0 <= w < physics::key_ids(partner_list@).len() && physics::key_ids(
                                    partner_list@,
                                )[w] == old(self).blobs@[k2].circle@;
                            assert(partner_list@[w]@ == old(self).blobs@[k2].circle@);
                        }
                    }
                } else {
                    proof {
                        assert forall|k2: u64|
                            #![trigger old(self).blobs@[k2]]
                            combat_defeat(*old(self), w0, bk@, k2) implies marked_for(
                            blob_keys@,
                            marked@,
                            k2,
                        ) by {
                            assert(physics::reported(
                                collisions@,
                                self.blobs@[bk@].circle@,
                                old(self).blobs@[k2].circle@,
                            ));
                            assert(collisions@.contains_key(self.blobs@[bk@].circle@));
                        }
                    }
                }
            } else {
                proof {
                    assert(false);
                }
            }
            i2 = i2 + 1;
        }
        let ghost marked_after_combat = marked@;
        // Integration: step every blob.
        let ghost mid = *self;
        let mut i3: usize = 0;
        while i3 < n
            invariant
                0 <= i3 <= n,
                n == blob_keys@.len(),
                n == targets@.len(),
                self.wf_core(),
                self.size == mid.size,
                self.foods == mid.foods,
                self.objects == mid.objects,
                self.blobs.next_id() == mid.blobs.next_id(),
                self.physics.circles.next_id() == mid.physics.circles.next_id(),
                forall|k: u64|
                    #[trigger] self.blobs@.contains_key(k) <==> mid.blobs@.contains_key(k),
                forall|t: int|
                    i3 <= t < n ==> self.blobs@[(#[trigger] blob_keys@[t])@] == mid.blobs@[blob_keys@[t]@],
                forall|t: int|
                    0 <= t < i3 ==> ({
                        let b0 = mid.blobs@[(#[trigger] blob_keys@[t])@];
                        let b1 = self.blobs@[blob_keys@[t]@];
                        &&& b1.max_hunger == b0.max_hunger
                        &&& b1.hunger == b0.hunger + timestep
                        &&& b1.color == b0.color
                        &&& b1.name == b0.name
                        &&& b1.alive_time == (if b0.alive_time + timestep <= u64::MAX {
                            b0.alive_time + timestep
                        } else {
                            u64::MAX as int
                        })
                        &&& 0 <= b1.pos.x <= sz.x
                        &&& 0 <= b1.pos.y <= sz.y
                        &&& moved_per_integration(b0, b1, targets@[t], timestep as int, sz)
                    }),
            decreases n - i3,
        {
            let bk = blob_keys[i3];
            let bs = BlobStep { target_direction: targets[i3] };
            let ghost pre = *self;
            proof {
                assert(pre.blob_ok_core(bk@));
                assert(pre.blobs@[bk@] == mid.blobs@[bk@]);
                assert(mid.blobs@[bk@].hunger <= mid.blobs@[bk@].max_hunger);
            }
            if let Some(b) = self.blobs.get_mut(bk) {
                b.step(&bs, timestep, &mut self.physics, sz);
            }
            proof {
                let s1 = self;
                let b0 = pre.blobs@[bk@];
                let b1 = s1.blobs@[bk@];
                assert(s1.blobs@ =~= pre.blobs@.insert(bk@, b1));
                assert(pre.circle_ok(b0.circle@));
                assert(pre.circle_ok(b0.sight_circle@));
                assert forall|k: u64|
                    #[trigger] s1.blobs@.contains_key(k) implies s1.blob_ok_core(k) by {
                    assert(pre.blob_ok_core(k));
                    if k != bk@ {
                        let b2 = pre.blobs@[k];
                        if b2.circle@ == b0.circle@ || b2.circle@ == b0.sight_circle@
                            || b2.sight_circle@ == b0.circle@ || b2.sight_circle@
                            == b0.sight_circle@ {
                            assert(false);
                        }
                    }
                }
                assert forall|k: u64| #[trigger] s1.foods@.contains_key(k) implies s1.food_ok(k) by {
                    assert(pre.food_ok(k));
                    let f = pre.foods@[k];
                    if f.circle@ == b0.circle@ || f.circle@ == b0.sight_circle@ {
                        assert(false);
                    }
                }
                assert forall|c: u64|
                    #[trigger] s1.physics.circles@.contains_key(c) implies s1.circle_ok(c) by {
                    assert(pre.circle_ok(c));
                }
                assert forall|c: u64|
                    #[trigger] s1.objects@.contains_key(c) implies s1.physics.circles@.contains_key(
                    c,
                ) by {
                    assert(pre.physics.circles@.contains_key(c));
                }
                assert forall|t: int| i3 + 1 <= t < n implies self.blobs@[(
                #[trigger] blob_keys@[t])@] == mid.blobs@[blob_keys@[t]@] by {
                    assert(blob_keys@[t]@ != bk@);
                }
            }
            i3 = i3 + 1;
        }
        // Starvation: mark every blob whose hunger exceeded its capacity
        // (its current position wins over a combat-recorded one).
        let ghost post_move = *self;
        let mut i4: usize = 0;
        while i4 < n
            invariant
                0 <= i4 <= n,
                n == blob_keys@.len(),
                marked@.len() == n,
                *self == post_move,
                forall|t: int|
                    0 <= t < n && marked_after_combat[t] is Some ==> (#[trigger] marked@[t])
                        is Some,
                forall|t: int|
                    0 <= t < n ==> ((#[trigger] marked@[t]) matches Some(p) ==> p == old(
                        self,
                    ).blobs@[blob_keys@[t]@].pos || p == post_move.blobs@[blob_keys@[t]@].pos),
                forall|t: int|
                    0 <= t < i4 ==> ({
                        let b = self.blobs@[(#[trigger] blob_keys@[t])@];
                        b.hunger <= b.max_hunger || marked@[t] is Some
                    }),
            decreases n - i4,
        {
            let bk = blob_keys[i4];
            if let Some(b) = self.blobs.get(bk) {
                if b.hunger > b.max_hunger {
                    let p = b.pos;
                    marked.set(i4, Some(p));
                }
            }
            i4 = i4 + 1;
        }
        // Lifecycle resolution: remove every marked blob and spawn a food
        // at its recorded position.
        let mut removed: Vec<Key<Blob>> = Vec::new();
        let mut spawned: Vec<Key<Food>> = Vec::new();
        let mut i5: usize = 0;
        while i5 < n
            invariant
                0 <= i5 <= n,
                n == blob_keys@.len(),
                marked@.len() == n,
                self.wf_core(),
                self.size == post_move.size,
                removed@.len() == spawned@.len(),
                removed@.len() <= i5,
                self.physics.circles.next_id() <= post_move.physics.circles.next_id() + i5,
                self.foods.next_id() <= post_move.foods.next_id() + i5,
                forall|k: u64|
                    #[trigger] self.blobs@.contains_key(k) ==> post_move.blobs@.contains_key(k)
                        && self.blobs@[k] == post_move.blobs@[k],
                forall|k: u64|
                    #[trigger] post_move.blobs@.contains_key(k) ==> self.blobs@.contains_key(k)
                        || key_listed(removed@, k),
                forall|t: int|
                    0 <= t < removed@.len() ==> post_move.blobs@.contains_key(
                        (#[trigger] removed@[t])@,
                    ) && !self.blobs@.contains_key(removed@[t]@),
                forall|t1: int, t2: int|
                    0 <= t1 < t2 < removed@.len() ==> (#[trigger] removed@[t1])@ != (
                    #[trigger] removed@[t2])@,
                forall|t: int|
                    i5 <= t < n ==> self.blobs@.contains_key((#[trigger] blob_keys@[t])@),
                forall|t: int|
                    0 <= t < i5 ==> (self.blobs@.contains_key((#[trigger] blob_keys@[t])@)
                        ==> marked@[t] is None),
                forall|t: int|
                    0 <= t < i5 && marked@[t] is Some ==> key_listed(
                        removed@,
                        (#[trigger] blob_keys@[t])@,
                    ),
                forall|k: u64|
                    #[trigger] post_move.foods@.contains_key(k) ==> self.foods@.contains_key(k)
                        && self.foods@[k] == post_move.foods@[k],
                forall|k: u64|
                    #[trigger] self.foods@.contains_key(k) ==> post_move.foods@.contains_key(k)
                        || key_listed(spawned@, k),
                forall|t: int|
                    0 <= t < spawned@.len() ==> (#[trigger] spawned@[t])@
                        >= post_move.foods.next_id(),
                forall|t: int|
                    0 <= t < spawned@.len() ==> (#[trigger] spawned@[t])@ < self.foods.next_id(),
                self.foods.next_id() >= post_move.foods.next_id(),
                forall|t: int|
                    0 <= t < spawned@.len() ==> self.foods@.contains_key((#[trigger] spawned@[t])@)
                        && (self.foods@[spawned@[t]@].pos == old(
                        self,
                    ).blobs@[removed@[t]@].pos || self.foods@[spawned@[t]@].pos
                        == post_move.blobs@[removed@[t]@].pos),
            decreases n - i5,
        {
            let bk = blob_keys[i5];
            let mark = marked[i5];
            if let Some(p) = mark {
                let ghost pre = *self;
                let ghost pre_removed = removed@;
                let ghost pre_spawned = spawned@;
                let r = self.remove_blob(bk);
                proof {
                    assert(pre.blobs@.contains_key(bk@));
                    assert(r is Some);
                }
                let fk = self.insert_food(p);
                removed.push(bk);
                spawned.push(fk);
                proof {
                    assert forall|k: u64|
                        #[trigger] post_move.blobs@.contains_key(k) implies self.blobs@.contains_key(
                        k,
                    ) || key_listed(removed@, k) by {
                        if !self.blobs@.contains_key(k) {
                            if k == bk@ {
                                assert(removed@[removed@.len() - 1]@ == bk@);
                            } else if !pre.blobs@.contains_key(k) {
                                let w = choose|w: int|
                                    0 <= w < pre_removed.len() && pre_removed[w]@ == k;
                                assert(removed@[w]@ == k);
                            }
                        }
                    }
                    assert forall|t: int|
                        0 <= t < removed@.len() implies post_move.blobs@.contains_key(
                        (#[trigger] removed@[t])@,
                    ) && !self.blobs@.contains_key(removed@[t]@) by {
                        if t < pre_removed.len() {
                            assert(removed@[t] == pre_removed[t]);
                        } else {
                            assert(removed@[t]@ == bk@);
                        }
                    }
                    assert forall|t: int|
                        0 <= t < i5 + 1 && marked@[t] is Some implies key_listed(
                        removed@,
                        (#[trigger] blob_keys@[t])@,
                    ) by {
                        if t < i5 {
                            let v = choose|v: int|
                                0 <= v < pre_removed.len() && pre_removed[v]@ == blob_keys@[t]@;
                            assert(removed@[v] == pre_removed[v]);
                            assert(removed@[v]@ == blob_keys@[t]@);
                        } else {
                            assert(removed@[removed@.len() - 1]@ == bk@);
                        }
                    }
                    assert forall|t1: int, t2: int|
                        0 <= t1 < t2 < removed@.len() implies (#[trigger] removed@[t1])@ != (
                    #[trigger] removed@[t2])@ by {
                        if t2 < pre_removed.len() {
                            assert(removed@[t1] == pre_removed[t1]
                                && removed@[t2] == pre_removed[t2]);
                        } else {
                            assert(removed@[t1] == pre_removed[t1]);
                            assert(removed@[t2]@ == bk@);
                            assert(!pre.blobs@.contains_key(pre_removed[t1]@));
                            assert(pre.blobs@.contains_key(bk@));
                        }
                    }
                    assert forall|t: int|
                        0 <= t < spawned@.len() implies (#[trigger] spawned@[t])@
                        >= post_move.foods.next_id() && spawned@[t]@ < self.foods.next_id() by {
                        if t < pre_spawned.len() {
                            assert(spawned@[t] == pre_spawned[t]);
                        } else {
                            assert(spawned@[t]@ == fk@);
                        }
                    }
                    assert forall|t: int|
                        0 <= t < spawned@.len() implies self.foods@.contains_key(
                        (#[trigger] spawned@[t])@,
                    ) && (self.foods@[spawned@[t]@].pos == old(self).blobs@[removed@[t]@].pos
                        || self.foods@[spawned@[t]@].pos
                        == post_move.blobs@[removed@[t]@].pos) by {
                        if t < pre_spawned.len() {
                            assert(spawned@[t] == pre_spawned[t]);
                            assert(removed@[t] == pre_removed[t]);
                            assert(spawned@[t]@ != fk@);
                        } else {
                            assert(spawned@[t]@ == fk@ && removed@[t]@ == bk@);
                            assert(self.foods@[fk@].pos == p);
                        }
                    }
                    assert forall|k: u64|
                        #[trigger] self.foods@.contains_key(k) implies post_move.foods@.contains_key(
                        k,
                    ) || key_listed(spawned@, k) by {
                        if !post_move.foods@.contains_key(k) {
                            if k == fk@ {
                                assert(spawned@[spawned@.len() - 1]@ == fk@);
                            } else {
                                let w = choose|w: int|
                                    0 <= w < pre_spawned.len() && pre_spawned[w]@ == k;
                                assert(spawned@[w]@ == k);
                            }
                        }
                    }
                }
            }
            i5 = i5 + 1;
        }
        proof {
            assert forall|k: u64|
                #[trigger] self.blobs@.contains_key(k) implies self.blobs@[k].hunger
                <= self.blobs@[k].max_hunger by {
                assert(post_move.blobs@.contains_key(k));
                assert(mid.blobs@.contains_key(k));
                assert(old(self).blobs@.contains_key(k));
                let t = choose|t: int| 0 <= t < n && blob_keys@[t]@ == k;
                assert(self.blobs@.contains_key(blob_keys@[t]@));
                assert(marked@[t] is None);
                assert(self.blobs@[k] == post_move.blobs@[k]);
            }
            assert forall|k: u64|
                #[trigger] self.blobs@.contains_key(k) implies ({
                    let b0 = old(self).blobs@[k];
                    let b1 = self.blobs@[k];
                    &&& b1.max_hunger == b0.max_hunger
                    &&& b1.hunger == b0.hunger + timestep
                    &&& b1.color == b0.color
                    &&& b1.name == b0.name
                }) by {
                let t = choose|t: int| 0 <= t < n && blob_keys@[t]@ == k;
                assert(self.blobs@[k] == post_move.blobs@[k]);
                assert(post_move.blobs@[(blob_keys@[t])@] == post_move.blobs@[k]);
            }
            assert forall|t: int| 0 <= t < removed@.len() implies old(self).blobs@.contains_key(
                (#[trigger] removed@[t])@,
            ) && !self.blobs@.contains_key(removed@[t]@) by {
                assert(post_move.blobs@.contains_key(removed@[t]@));
            }
            assert forall|k1: u64, k2: u64|
                #![trigger old(self).blobs@[k1], old(self).blobs@[k2]]
                combat_defeat(*old(self), w0, k1, k2) implies key_listed(removed@, k2) by {
                assert(marked_for(blob_keys@, marked_after_combat, k2));
                let t2 = choose|t: int| 0 <= t < n && (blob_keys@[t])@ == k2;
                assert(marked_after_combat[t2] is Some);
                assert(marked@[t2] is Some);
                assert(key_listed(removed@, blob_keys@[t2]@));
            }
        }
        (removed, spawned)
    }
}

/// Marks the blob `key`'s entry in the parallel mark list with `pos`,
/// overwriting any earlier mark.
#[verifier::loop_isolation(false)]
fn mark_index(
    marked: &mut Vec<Option<Vec2>>,
    blob_keys: &Vec<Key<Blob>>,
    key: Key<Blob>,
    pos: Vec2,
)
    requires
        old(marked)@.len() == blob_keys@.len(),
    ensures
        final(marked)@.len() == old(marked)@.len(),
        forall|t: int|
            0 <= t < final(marked)@.len() && (#[trigger] blob_keys@[t])@ == key@
                ==> final(marked)@[t] == Some(pos),
        forall|t: int|
            0 <= t < final(marked)@.len() && (#[trigger] blob_keys@[t])@ != key@
                ==> final(marked)@[t] == old(marked)@[t],
        forall|t: int|
            0 <= t < final(marked)@.len() && old(marked)@[t] is Some ==> (
            #[trigger] final(marked)@[t]) is Some,
{
    let m = blob_keys.len();
    let mut t: usize = 0;
    while t < m
        invariant
            0 <= t <= m,
            m == blob_keys@.len(),
            marked@.len() == m,
            forall|q: int|
                0 <= q < t && (#[trigger] blob_keys@[q])@ == key@ ==> marked@[q] == Some(pos),
            forall|q: int|
                0 <= q < m && (#[trigger] blob_keys@[q])@ != key@ ==> marked@[q] == old(
                    marked,
                )@[q],
            forall|q: int| t <= q < m ==> (#[trigger] marked@[q]) == old(marked)@[q],
            forall|q: int|
                0 <= q < m && old(marked)@[q] is Some ==> (#[trigger] marked@[q]) is Some,
        decreases m - t,
    {
        if blob_keys[t].id() == key.id() {
            marked.set(t, Some(pos));
        }
        t = t + 1;
    }
}

} // verus!

// Hit-testing and object colors.

verus! {

/// Whether a point probe at `p` touches a circle of the given center and
/// radius.
pub open spec fn probe_hits(p: Vec2, center: Vec2, radius: int) -> bool {
    (center.x - p.x) * (center.x - p.x) + (center.y - p.y) * (center.y - p.y) <= radius * radius
}

/// The broad phase groups the probe (inserted at key `pk` into the circle
/// map `m`) together with the circle `c`.
pub open spec fn probe_sees(m: Map<u64, Circle>, pk: u64, probe: Circle, c: u64) -> bool {
    physics::same_group(physics::arrangement(m.insert(pk, probe)), pk, c)
}

/// Completeness of the hit test: a live entity whose circle the snapshot
/// of the probed world must report is in the result lists.
proof fn lemma_select_complete(
    s0: Simulation,
    pk: u64,
    probe_c: Circle,
    wp: World,
    snap: Map<u64, Seq<u64>>,
    pos: Vec2,
    partners: Seq<u64>,
    bf: Seq<Key<Blob>>,
    ff: Seq<Key<Food>>,
)
    requires
        s0.wf(),
        pk == s0.physics.circles.next_id(),
        probe_c.center == pos,
        probe_c.radius == 0,
        probe_c.layer@ == 16,
        wp.circles@ == s0.physics.circles@.insert(pk, probe_c),
        wp.matrix() == sim_matrix(),
        forall|a: u64, b: u64|
            #[trigger] physics::reported(snap, a, b) <==> physics::collides_in_world(wp, a, b),
        snap.contains_key(pk),
        snap[pk] == partners,
        forall|w: int, k: u64|
            #![trigger partners[w], s0.blobs@[k]]
            0 <= w < partners.len() && s0.blobs@.contains_key(k) && s0.blobs@[k].circle@
                == partners[w] ==> key_listed(bf, k),
        forall|w: int, k: u64|
            #![trigger partners[w], s0.foods@[k]]
            0 <= w < partners.len() && s0.foods@.contains_key(k) && s0.foods@[k].circle@
                == partners[w] ==> key_listed(ff, k),
    ensures
        forall|k: u64, probe: Circle|
            #![trigger probe_sees(s0.physics.circles@, s0.physics.circles.next_id(), probe, s0.blobs@[k].circle@)]
            s0.blobs@.contains_key(k) && probe.center == pos && probe.radius == 0 && probe.layer@
                == 16 && probe_sees(
                s0.physics.circles@,
                s0.physics.circles.next_id(),
                probe,
                s0.blobs@[k].circle@,
            ) && probe_hits(pos, s0.blobs@[k].pos, s0.blobs@[k].radius as int) ==> key_listed(
                bf,
                k,
            ),
        forall|k: u64, probe: Circle|
            #![trigger probe_sees(s0.physics.circles@, s0.physics.circles.next_id(), probe, s0.foods@[k].circle@)]
            s0.foods@.contains_key(k) && probe.center == pos && probe.radius == 0 && probe.layer@
                == 16 && probe_sees(
                s0.physics.circles@,
                s0.physics.circles.next_id(),
                probe,
                s0.foods@[k].circle@,
            ) && probe_hits(pos, s0.foods@[k].pos, FOOD_RADIUS as int) ==> key_listed(ff, k),
{
    assert((5u32 & 1u32) != 0u32 && (5u32 & 4u32) != 0u32) by (bit_vector);
    assert forall|k: u64, probe: Circle|
        s0.blobs@.contains_key(k) && probe.center == pos && probe.radius == 0 && probe.layer@
            == 16 && #[trigger] probe_sees(
            s0.physics.circles@,
            s0.physics.circles.next_id(),
            probe,
            s0.blobs@[k].circle@,
        ) && probe_hits(pos, s0.blobs@[k].pos, s0.blobs@[k].radius as int) implies key_listed(
        bf,
        k,
    ) by {
        physics::lemma_layer_view_injective(probe.layer, probe_c.layer);
        assert(probe == probe_c);
        let c = s0.blobs@[k].circle@;
        assert(s0.blob_ok_core(k));
        s0.physics.circles.lemma_keys_below_next();
        assert(c < pk);
        assert(wp.circles@[c] == s0.physics.circles@[c]);
        assert(physics::intersects_spec(wp.circles@[pk], wp.circles@[c]));
        assert(physics::collides_in_world(wp, pk, c));
        assert(physics::reported(snap, pk, c));
        let w = choose|w: int| 0 <= w < partners.len() && partners[w] == c;
        assert(partners[w] == c && s0.blobs@[k].circle@ == partners[w]);
    }
    assert forall|k: u64, probe: Circle|
        s0.foods@.contains_key(k) && probe.center == pos && probe.radius == 0 && probe.layer@
            == 16 && #[trigger] probe_sees(
            s0.physics.circles@,
            s0.physics.circles.next_id(),
            probe,
            s0.foods@[k].circle@,
        ) && probe_hits(pos, s0.foods@[k].pos, FOOD_RADIUS as int) implies key_listed(ff, k) by {
        physics::lemma_layer_view_injective(probe.layer, probe_c.layer);
        assert(probe == probe_c);
        let c = s0.foods@[k].circle@;
        assert(s0.food_ok(k));
        s0.physics.circles.lemma_keys_below_next();
        assert(c < pk);
        assert(wp.circles@[c] == s0.physics.circles@[c]);
        assert(physics::intersects_spec(wp.circles@[pk], wp.circles@[c]));
        assert(physics::collides_in_world(wp, pk, c));
        assert(physics::reported(snap, pk, c));
        let w = choose|w: int| 0 <= w < partners.len() && partners[w] == c;
        assert(partners[w] == c && s0.foods@[k].circle@ == partners[w]);
    }
}

/// When the snapshot has no entry for the probe, nothing satisfies the
/// completeness hypotheses.
proof fn lemma_select_complete_empty(
    s0: Simulation,
    pk: u64,
    probe_c: Circle,
    wp: World,
    snap: Map<u64, Seq<u64>>,
    pos: Vec2,
)
    requires
        s0.wf(),
        pk == s0.physics.circles.next_id(),
        probe_c.center == pos,
        probe_c.radius == 0,
        probe_c.layer@ == 16,
        wp.circles@ == s0.physics.circles@.insert(pk, probe_c),
        wp.matrix() == sim_matrix(),
        forall|a: u64, b: u64|
            #[trigger] physics::reported(snap, a, b) <==> physics::collides_in_world(wp, a, b),
        !snap.contains_key(pk),
    ensures
        forall|k: u64, probe: Circle|
            #![trigger probe_sees(s0.physics.circles@, s0.physics.circles.next_id(), probe, s0.blobs@[k].circle@)]
            !(s0.blobs@.contains_key(k) && probe.center == pos && probe.radius == 0
                && probe.layer@ == 16 && probe_sees(
                s0.physics.circles@,
                s0.physics.circles.next_id(),
                probe,
                s0.blobs@[k].circle@,
            ) && probe_hits(pos, s0.blobs@[k].pos, s0.blobs@[k].radius as int)),
        forall|k: u64, probe: Circle|
            #![trigger probe_sees(s0.physics.circles@, s0.physics.circles.next_id(), probe, s0.foods@[k].circle@)]
            !(s0.foods@.contains_key(k) && probe.center == pos && probe.radius == 0
                && probe.layer@ == 16 && probe_sees(
                s0.physics.circles@,
                s0.physics.circles.next_id(),
                probe,
                s0.foods@[k].circle@,
            ) && probe_hits(pos, s0.foods@[k].pos, FOOD_RADIUS as int)),
{
    assert((5u32 & 1u32) != 0u32 && (5u32 & 4u32) != 0u32) by (bit_vector);
    assert forall|k: u64, probe: Circle|
        s0.blobs@.contains_key(k) && probe.center == pos && probe.radius == 0 && probe.layer@
            == 16 && #[trigger] probe_sees(
            s0.physics.circles@,
            s0.physics.circles.next_id(),
            probe,
            s0.blobs@[k].circle@,
        ) implies !probe_hits(pos, s0.blobs@[k].pos, s0.blobs@[k].radius as int) by {
        if probe_hits(pos, s0.blobs@[k].pos, s0.blobs@[k].radius as int) {
            physics::lemma_layer_view_injective(probe.layer, probe_c.layer);
            assert(probe == probe_c);
            let c = s0.blobs@[k].circle@;
            assert(s0.blob_ok_core(k));
            s0.physics.circles.lemma_keys_below_next();
            assert(c < pk);
            assert(wp.circles@[c] == s0.physics.circles@[c]);
            assert(physics::intersects_spec(wp.circles@[pk], wp.circles@[c]));
            assert(physics::collides_in_world(wp, pk, c));
            assert(physics::reported(snap, pk, c));
        }
    }
    assert forall|k: u64, probe: Circle|
        s0.foods@.contains_key(k) && probe.center == pos && probe.radius == 0 && probe.layer@
            == 16 && #[trigger] probe_sees(
            s0.physics.circles@,
            s0.physics.circles.next_id(),
            probe,
            s0.foods@[k].circle@,
        ) implies !probe_hits(pos, s0.foods@[k].pos, FOOD_RADIUS as int) by {
        if probe_hits(pos, s0.foods@[k].pos, FOOD_RADIUS as int) {
            physics::lemma_layer_view_injective(probe.layer, probe_c.layer);
            assert(probe == probe_c);
            let c = s0.foods@[k].circle@;
            assert(s0.food_ok(k));
            s0.physics.circles.lemma_keys_below_next();
            assert(c < pk);
            assert(wp.circles@[c] == s0.physics.circles@[c]);
            assert(physics::intersects_spec(wp.circles@[pk], wp.circles@[c]));
            assert(physics::collides_in_world(wp, pk, c));
            assert(physics::reported(snap, pk, c));
        }
    }
}

impl Simulation {
    /// Hit-tests `pos`: inserts a zero-radius probe circle on the
    /// selection layer, runs one collision pass, removes the probe, and
    /// classifies the hits.  Every returned blob (food) is live and its
    /// body circle touches the point; the simulation is left unchanged.
    #[verifier::loop_isolation(false)]
    pub fn select(&mut self, pos: Vec2) -> (r: (Vec<Key<Blob>>, Vec<Key<Food>>))
        requires
            old(self).wf(),
            old(self).physics.circles.next_id() < u64::MAX,
        ensures
            final(self).wf(),
            final(self).blobs == old(self).blobs,
            final(self).foods == old(self).foods,
            final(self).objects == old(self).objects,
            final(self).size == old(self).size,
            final(self).physics.circles@ == old(self).physics.circles@,
            final(self).physics.circles.next_id() == old(self).physics.circles.next_id() + 1,
            forall|t: int|
                0 <= t < r.0@.len() ==> old(self).blobs@.contains_key((#[trigger] r.0@[t])@)
                    && probe_hits(
                    pos,
                    old(self).blobs@[r.0@[t]@].pos,
                    old(self).blobs@[r.0@[t]@].radius as int,
                ),
            forall|t: int|
                0 <= t < r.1@.len() ==> old(self).foods@.contains_key((#[trigger] r.1@[t])@)
                    && probe_hits(pos, old(self).foods@[r.1@[t]@].pos, FOOD_RADIUS as int),
            forall|t1: int, t2: int|
                0 <= t1 < t2 < r.0@.len() ==> (#[trigger] r.0@[t1])@ != (#[trigger] r.0@[t2])@,
            forall|t1: int, t2: int|
                0 <= t1 < t2 < r.1@.len() ==> (#[trigger] r.1@[t1])@ != (#[trigger] r.1@[t2])@,
            forall|k: u64, probe: Circle|
                #![trigger probe_sees(old(self).physics.circles@, old(self).physics.circles.next_id(), probe, old(self).blobs@[k].circle@)]
                old(self).blobs@.contains_key(k) && probe.center == pos && probe.radius == 0
                    && probe.layer@ == 16 && probe_sees(
                    old(self).physics.circles@,
                    old(self).physics.circles.next_id(),
                    probe,
                    old(self).blobs@[k].circle@,
                ) && probe_hits(pos, old(self).blobs@[k].pos, old(self).blobs@[k].radius as int)
                    ==> key_listed(r.0@, k),
            forall|k: u64, probe: Circle|
                #![trigger probe_sees(old(self).physics.circles@, old(self).physics.circles.next_id(), probe, old(self).foods@[k].circle@)]
                old(self).foods@.contains_key(k) && probe.center == pos && probe.radius == 0
                    && probe.layer@ == 16 && probe_sees(
                    old(self).physics.circles@,
                    old(self).physics.circles.next_id(),
                    probe,
                    old(self).foods@[k].circle@,
                ) && probe_hits(pos, old(self).foods@[k].pos, FOOD_RADIUS as int) ==> key_listed(
                    r.1@,
                    k,
                ),
    {
        proof {
            assert(1u32 << 4u8 == 16u32) by (bit_vector);
            assert((5u32 & 1u32) != 0u32 && (5u32 & 4u32) != 0u32) by (bit_vector);
            assert((2u32 & 5u32) == 0u32 && (1u32 & 5u32) != 0u32 && (4u32 & 5u32) != 0u32)
                by (bit_vector);
        }
        let selection_layer = Layer::new(4);
        let ghost pk = self.physics.circles.next_id();
        let ghost probe_c = Circle { center: pos, radius: 0, layer: selection_layer };
        let probe_key = self.physics.circles.insert(
            Circle { center: pos, radius: 0, layer: selection_layer },
        );
        let ghost wp = self.physics;
        let collisions = self.physics.collisions();
        self.physics.circles.remove(probe_key);
        proof {
            assert(self.physics.circles@ =~= old(self).physics.circles@);
            assert forall|k: u64|
                #[trigger] self.blobs@.contains_key(k) implies self.blob_ok_core(k) by {
                assert(old(self).blob_ok_core(k));
            }
            assert forall|k: u64| #[trigger] self.foods@.contains_key(k) implies self.food_ok(k) by {
                assert(old(self).food_ok(k));
            }
            assert forall|c: u64|
                #[trigger] self.physics.circles@.contains_key(c) implies self.circle_ok(c) by {
                assert(old(self).circle_ok(c));
            }
        }
        let mut blobs_found: Vec<Key<Blob>> = Vec::new();
        let mut foods_found: Vec<Key<Food>> = Vec::new();
        if let Some(partner_list) = collisions.get(&probe_key) {
            let pn = partner_list.len();
            let mut pj: usize = 0;
            while pj < pn
                invariant
                    0 <= pj <= pn,
                    pn == partner_list@.len(),
                    physics::key_ids(partner_list@) == collisions@[probe_key@],
                    collisions@.contains_key(probe_key@),
                    forall|t: int|
                        0 <= t < blobs_found@.len() ==> old(self).blobs@.contains_key(
                            (#[trigger] blobs_found@[t])@,
                        ) && probe_hits(
                            pos,
                            old(self).blobs@[blobs_found@[t]@].pos,
                            old(self).blobs@[blobs_found@[t]@].radius as int,
                        ),
                    forall|t: int|
                        0 <= t < foods_found@.len() ==> old(self).foods@.contains_key(
                            (#[trigger] foods_found@[t])@,
                        ) && probe_hits(
                            pos,
                            old(self).foods@[foods_found@[t]@].pos,
                            FOOD_RADIUS as int,
                        ),
                    physics::key_ids(partner_list@).no_duplicates(),
                    forall|t: int|
                        #![trigger blobs_found@[t]]
                        0 <= t < blobs_found@.len() ==> exists|w: int|
                            0 <= w < pj && (#[trigger] partner_list@[w])@ == old(
                                self,
                            ).blobs@[blobs_found@[t]@].circle@,
                    forall|t: int|
                        #![trigger foods_found@[t]]
                        0 <= t < foods_found@.len() ==> exists|w: int|
                            0 <= w < pj && (#[trigger] partner_list@[w])@ == old(
                                self,
                            ).foods@[foods_found@[t]@].circle@,
                    forall|t1: int, t2: int|
                        0 <= t1 < t2 < blobs_found@.len() ==> (#[trigger] blobs_found@[t1])@ != (
                        #[trigger] blobs_found@[t2])@,
                    forall|t1: int, t2: int|
                        0 <= t1 < t2 < foods_found@.len() ==> (#[trigger] foods_found@[t1])@ != (
                        #[trigger] foods_found@[t2])@,
                    forall|w: int, k: u64|
                        #![trigger partner_list@[w], old(self).blobs@[k]]
                        0 <= w < pj && old(self).blobs@.contains_key(k) && old(
                            self,
                        ).blobs@[k].circle@ == (partner_list@[w])@ ==> key_listed(
                            blobs_found@,
                            k,
                        ),
                    forall|w: int, k: u64|
                        #![trigger partner_list@[w], old(self).foods@[k]]
                        0 <= w < pj && old(self).foods@.contains_key(k) && old(
                            self,
                        ).foods@[k].circle@ == (partner_list@[w])@ ==> key_listed(
                            foods_found@,
                            k,
                        ),
                decreases pn - pj,
            {
                let ck = partner_list[pj];
                proof {
                    assert(physics::key_ids(partner_list@)[pj as int] == ck@);
                    assert(collisions@[probe_key@].contains(ck@));
                    assert(physics::reported(collisions@, probe_key@, ck@));
                    assert(physics::collides_in_world(wp, probe_key@, ck@));
                    assert(old(self).physics.circles@.contains_key(ck@));
                    assert(old(self).circle_ok(ck@));
                }
                let obj = match self.objects.get(ck.id()) {
                    Some(o) => Some(*o),
                    None => None,
                };
                let ghost pre_blobs_found = blobs_found@;
                let ghost pre_foods_found = foods_found@;
                match obj {
                    Some(CircleObject::Blob(bk)) => {
                        proof {
                            assert(old(self).blobs@.contains_key(bk@));
                            assert(old(self).blob_ok_core(bk@));
                            assert(old(self).blobs@[bk@].circle@ == ck@);
                        }
                        blobs_found.push(bk);
                    },
                    Some(CircleObject::Food(fk)) => {
                        proof {
                            assert(old(self).foods@.contains_key(fk@));
                            assert(old(self).food_ok(fk@));
                            assert(old(self).foods@[fk@].circle@ == ck@);
                        }
                        foods_found.push(fk);
                    },
                    _ => {
                    },
                }
                proof {
                    assert forall|t1: int, t2: int|
                        0 <= t1 < t2 < blobs_found@.len() implies (#[trigger] blobs_found@[t1])@
                        != (#[trigger] blobs_found@[t2])@ by {
                        if t2 == blobs_found@.len() - 1 && blobs_found@.len() > pre_blobs_found.len() {
                            assert(blobs_found@[t1] == pre_blobs_found[t1]);
                            let w = choose|w: int|
                                0 <= w < pj && (#[trigger] partner_list@[w])@ == old(
                                    self,
                                ).blobs@[pre_blobs_found[t1]@].circle@;
                            assert(physics::key_ids(partner_list@)[w] == partner_list@[w]@);
                            assert(physics::key_ids(partner_list@)[pj as int] != physics::key_ids(
                                partner_list@,
                            )[w]);
                            if blobs_found@[t1]@ == blobs_found@[t2]@ {
                                assert(old(self).blobs@[blobs_found@[t1]@].circle@ == ck@);
                            }
                        } else {
                            assert(blobs_found@[t1] == pre_blobs_found[t1]
                                && blobs_found@[t2] == pre_blobs_found[t2]);
                        }
                    }
                    assert forall|t1: int, t2: int|
                        0 <= t1 < t2 < foods_found@.len() implies (#[trigger] foods_found@[t1])@
                        != (#[trigger] foods_found@[t2])@ by {
                        if t2 == foods_found@.len() - 1 && foods_found@.len() > pre_foods_found.len() {
                            assert(foods_found@[t1] == pre_foods_found[t1]);
                            let w = choose|w: int|
                                0 <= w < pj && (#[trigger] partner_list@[w])@ == old(
                                    self,
                                ).foods@[pre_foods_found[t1]@].circle@;
                            assert(physics::key_ids(partner_list@)[w] == partner_list@[w]@);
                            assert(physics::key_ids(partner_list@)[pj as int] != physics::key_ids(
                                partner_list@,
                            )[w]);
                            if foods_found@[t1]@ == foods_found@[t2]@ {
                                assert(old(self).foods@[foods_found@[t1]@].circle@ == ck@);
                            }
                        } else {
                            assert(foods_found@[t1] == pre_foods_found[t1]
                                && foods_found@[t2] == pre_foods_found[t2]);
                        }
                    }
                    assert forall|w: int, k: u64|
                        #![trigger partner_list@[w], old(self).blobs@[k]]
                        0 <= w < pj + 1 && old(self).blobs@.contains_key(k) && old(
                            self,
                        ).blobs@[k].circle@ == (partner_list@[w])@ implies key_listed(
                        blobs_found@,
                        k,
                    ) by {
                        if w < pj {
                            let v = choose|v: int|
                                0 <= v < pre_blobs_found.len() && pre_blobs_found[v]@ == k;
                            assert(blobs_found@[v]@ == k);
                        } else {
                            assert(old(self).circle_ok(ck@));
                            assert(old(self).blob_ok_core(k));
                            assert(blobs_found@[blobs_found@.len() - 1]@ == k);
                        }
                    }
                    assert forall|w: int, k: u64|
                        #![trigger partner_list@[w], old(self).foods@[k]]
                        0 <= w < pj + 1 && old(self).foods@.contains_key(k) && old(
                            self,
                        ).foods@[k].circle@ == (partner_list@[w])@ implies key_listed(
                        foods_found@,
                        k,
                    ) by {
                        if w < pj {
                            let v = choose|v: int|
                                0 <= v < pre_foods_found.len() && pre_foods_found[v]@ == k;
                            assert(foods_found@[v]@ == k);
                        } else {
                            assert(old(self).circle_ok(ck@));
                            assert(old(self).food_ok(k));
                            assert(foods_found@[foods_found@.len() - 1]@ == k);
                        }
                    }
                }
                pj = pj + 1;
            }
            proof {
                lemma_select_complete(
                    *old(self),
                    pk,
                    probe_c,
                    wp,
                    collisions@,
                    pos,
                    physics::key_ids(partner_list@),
                    blobs_found@,
                    foods_found@,
                );
            }
        } else {
            proof {
                lemma_select_complete_empty(*old(self), pk, probe_c, wp, collisions@, pos);
            }
        }
        (blobs_found, foods_found)
    }
}

impl CircleObject {
    /// The color the tagged entity is drawn with: the blob's own color, the
    /// fixed food color, or nothing for a sight disc.
    pub fn color(&self, sim: &Simulation) -> (r: Option<Color>)
        requires
            sim.wf(),
        ensures
            r == (match *self {
                CircleObject::Blob(bk) => if sim.blobs@.contains_key(bk@) {
                    Option::Some(sim.blobs@[bk@].color)
                } else {
                    Option::None
                },
                CircleObject::Food(_) => Option::Some(Color { r: 0, g: 228, b: 48, a: 255 }),
                CircleObject::BlobSight(_) => Option::None,
            }),
    {
        match *self {
            CircleObject::Blob(blob) => match sim.get_blob(blob) {
                Some(b) => Some(b.color),
                None => None,
            },
            CircleObject::Food(_) => Some(food_color()),
            CircleObject::BlobSight(_) => None,
        }
    }
}

} // verus!
