use crate::coord::Coord;
use crate::options::{ShadowMode, MAX_DEPTH};
use crate::traverse::HitInfo;
use vstd::arithmetic::power::pow;
use vstd::prelude::*;

verus! {

/// The depth from which a ray goes on only by chance.
pub const ROULETTE_DEPTH: i32 = 3;

/// One more than the largest draw.
pub const DRAW_RANGE: u64 = 0x1_0000_0000;

/// Whether a ray at `depth` goes on, given a draw out of `0 .. DRAW_RANGE`.
/// Below `ROULETTE_DEPTH` it always does. From there on it does where the
/// draw, as a fraction of `DRAW_RANGE`, is at most nine tenths to the
/// power of `depth - ROULETTE_DEPTH`, and never at `MAX_DEPTH` or beyond.
pub open spec fn survives(depth: int, draw: int) -> bool {
    depth < ROULETTE_DEPTH || (depth < MAX_DEPTH && draw * pow(
        10,
        (depth - ROULETTE_DEPTH) as nat,
    ) <= pow(9, (depth - ROULETTE_DEPTH) as nat) * DRAW_RANGE)
}

/// Decides on a draw whether a ray at `depth` goes on.
pub fn roulette_survives(depth: i32, draw: u32) -> (go: bool)
    ensures
        go == survives(depth as int, draw as int),
{
    proof {
        reveal_with_fuel(pow, 3);
    }
    if depth < ROULETTE_DEPTH {
        return true;
    }
    if depth >= MAX_DEPTH {
        return false;
    }
    let d: u64 = draw as u64;
    if depth == ROULETTE_DEPTH {
        d <= DRAW_RANGE
    } else if depth == ROULETTE_DEPTH + 1 {
        d * 10 <= 9 * DRAW_RANGE
    } else {
        d * 100 <= 81 * DRAW_RANGE
    }
}

/// A number from the generator of the current thread, by `rand::random`.
/// Nothing is claimed of the value.
#[verifier::external_body]
fn random_draw() -> u32 {
    rand::random::<u32>()
}

/// Whether a ray at `depth` is traced at all. Below `ROULETTE_DEPTH` it
/// always is, at `MAX_DEPTH` and beyond it never is; in between a draw
/// decides as `survives` tells.
pub fn roulette(depth: i32) -> (go: bool)
    ensures
        depth < ROULETTE_DEPTH ==> go,
        depth >= MAX_DEPTH ==> !go,
        exists|draw: int| 0 <= draw < DRAW_RANGE && go == #[trigger] survives(depth as int, draw),
{
    if depth < ROULETTE_DEPTH {
        assert(survives(depth as int, 0));
        return true;
    }
    if depth >= MAX_DEPTH {
        assert(!survives(depth as int, 0));
        return false;
    }
    let draw = random_draw();
    let go = roulette_survives(depth, draw);
    assert(go == survives(depth as int, draw as int));
    go
}

/// What of a surface decides how it is shaded.
#[derive(Clone, Copy, Debug, PartialEq, Eq, Structural)]
pub struct Surface {
    pub emissive: bool,
    pub reflective: bool,
    pub transparent: bool,
}

/// The parts that make up the colour of a hit.
#[derive(Clone, Copy, Debug, PartialEq, Eq, Structural)]
pub struct ShadePlan {
    /// The surface glows: its emission is the whole colour.
    pub emission_only: bool,
    /// Ambient light and the light of each source are summed.
    pub lit: bool,
    /// A mirrored ray is traced one level deeper.
    pub reflect: bool,
    /// A refracted ray is traced one level deeper.
    pub refract: bool,
}

/// The parts for a surface hit at `depth` under a depth limit. A glowing
/// surface takes no light and sends no rays. Any other is lit, and sends a
/// mirrored ray where it reflects and a refracted ray where it lets light
/// through, both only below the limit.
pub open spec fn plan_of(surface: Surface, depth: int, max_depth: int) -> ShadePlan {
    if surface.emissive {
        ShadePlan { emission_only: true, lit: false, reflect: false, refract: false }
    } else {
        ShadePlan {
            emission_only: false,
            lit: true,
            reflect: surface.reflective && depth < max_depth,
            refract: surface.transparent && depth < max_depth,
        }
    }
}

/// Plans the shading of a surface hit at `depth` under a depth limit.
pub fn plan_shading(surface: Surface, depth: i32, max_depth: i32) -> (plan: ShadePlan)
    ensures
        plan == plan_of(surface, depth as int, max_depth as int),
{
    if surface.emissive {
        ShadePlan { emission_only: true, lit: false, reflect: false, refract: false }
    } else {
        ShadePlan {
            emission_only: false,
            lit: true,
            reflect: surface.reflective && depth < max_depth,
            refract: surface.transparent && depth < max_depth,
        }
    }
}

/// The kind of a light, without its numbers.
#[derive(Clone, Copy, Debug, PartialEq, Eq, Structural)]
pub enum LightKind {
    Point,
    Directional,
    Spot,
}

/// Light `light` is the sun: the first directional light of the list.
pub open spec fn is_sun(kinds: Seq<LightKind>, light: int) -> bool {
    &&& 0 <= light < kinds.len()
    &&& kinds[light] == LightKind::Directional
    &&& forall|j: int| 0 <= j < light ==> #[trigger] kinds[j] != LightKind::Directional
}

/// Whether a shadow ray is cast towards light `light` under a mode.
pub open spec fn shadow_tested(mode: ShadowMode, kinds: Seq<LightKind>, light: int) -> bool {
    match mode {
        ShadowMode::Off => false,
        ShadowMode::SunOnly => is_sun(kinds, light),
        ShadowMode::Full => true,
    }
}

/// Decides whether a shadow ray is cast towards one of the scene's lights.
pub fn casts_shadow_ray(mode: ShadowMode, kinds: &Vec<LightKind>, light: usize) -> (cast: bool)
    requires
        light < kinds@.len(),
    ensures
        cast == shadow_tested(mode, kinds@, light as int),
{
    match mode {
        ShadowMode::Off => false,
        ShadowMode::Full => true,
        ShadowMode::SunOnly => {
            if !is_directional(kinds[light]) {
                return false;
            }
            let mut j: usize = 0;
            while j < light
                invariant
                    0 <= j <= light < kinds@.len(),
                    mode == ShadowMode::SunOnly,
                    kinds@[light as int] == LightKind::Directional,
                    forall|k: int| 0 <= k < j ==> #[trigger] kinds@[k] != LightKind::Directional,
                decreases light - j,
            {
                if is_directional(kinds[j]) {
                    return false;
                }
                j = j + 1;
            }
            true
        },
    }
}

/// Tells whether a light shines from a direction rather than a place.
pub fn is_directional(kind: LightKind) -> (r: bool)
    ensures
        r == (kind == LightKind::Directional),
{
    match kind {
        LightKind::Directional => true,
        _ => false,
    }
}

/// A point lies in the shadow of a light when something is hit on the way
/// that is strictly nearer than the light.
pub fn in_shadow(blocker: Option<HitInfo>, light_distance: Coord) -> (dark: bool)
    ensures
        dark == (blocker is Some && blocker->0.t.key < light_distance.key),
{
    match blocker {
        Some(hit) => hit.t.key < light_distance.key,
        None => false,
    }
}

/// Where a point lies in the cone of a spot light.
#[derive(Clone, Copy, Debug, PartialEq, Eq, Structural)]
pub enum SpotZone {
    /// Within the inner cone: lit in full.
    Inside,
    /// Between the inner and the outer cone: lit in part.
    Falloff,
    /// Beyond the outer cone: not lit.
    Outside,
}

/// The zone of a point from the cosine of its angle to the axis of the
/// spot and the cosines of the two cone angles: a larger cosine is a
/// smaller angle.
pub open spec fn zone_of(cos_angle: Coord, cos_inner: Coord, cos_outer: Coord) -> SpotZone {
    if cos_angle.key > cos_inner.key {
        SpotZone::Inside
    } else if cos_angle.key > cos_outer.key {
        SpotZone::Falloff
    } else {
        SpotZone::Outside
    }
}

/// Tells in which zone of a spot light a point lies.
pub fn spot_zone(cos_angle: Coord, cos_inner: Coord, cos_outer: Coord) -> (zone: SpotZone)
    ensures
        zone == zone_of(cos_angle, cos_inner, cos_outer),
{
    if cos_angle.key > cos_inner.key {
        SpotZone::Inside
    } else if cos_angle.key > cos_outer.key {
        SpotZone::Falloff
    } else {
        SpotZone::Outside
    }
}

/// Below `ROULETTE_DEPTH` no draw can end a ray, and from `MAX_DEPTH` on
/// none can keep it.
pub proof fn lemma_roulette_bounds(depth: int, draw: int)
    ensures
        depth < ROULETTE_DEPTH ==> survives(depth, draw),
        depth >= MAX_DEPTH ==> !survives(depth, draw),
{
}

} // verus!
