use crate::coord::Coord;
use vstd::prelude::*;

verus! {

/// The deepest that a chain of reflected and refracted rays may go.
pub const MAX_DEPTH: i32 = 6;

/// The coarsest resolution scale on offer.
pub const MAX_SCALE: usize = 4;

/// Which lights are tested for shadows.
#[derive(Clone, Copy, Debug, PartialEq, Eq, Structural)]
pub enum ShadowMode {
    /// No shadow rays at all.
    Off,
    /// Only the first directional light, the sun.
    SunOnly,
    /// Every light.
    Full,
}

/// Why a configuration is turned down.
#[derive(Clone, Copy, Debug, PartialEq, Eq, Structural)]
pub enum ConfigError {
    /// The scale factor is not one of 1, 2, 3, 4.
    ScaleOutOfRange,
    /// The depth limit is not between 1 and `MAX_DEPTH`.
    DepthOutOfRange,
}

/// What the shading of one frame is told.
#[derive(Clone, Copy, Debug, PartialEq, Eq, Structural)]
pub struct RenderOptions {
    pub shadow_mode: ShadowMode,
    pub max_depth: i32,
    pub far_simplify_distance: Coord,
}

/// The quality settings that the user steers, and the phase of the
/// checkerboard.
#[derive(Clone, Copy, Debug, PartialEq, Eq, Structural)]
pub struct RenderState {
    pub scale_factor: usize,
    pub shadow_mode: ShadowMode,
    pub max_depth: i32,
    pub ultra_mode: bool,
    pub checker_phase: bool,
}

/// What the user may ask for between two frames.
#[derive(Clone, Copy, Debug, PartialEq, Eq, Structural)]
pub enum Command {
    /// Render at this scale.
    Scale(usize),
    /// Allow one more bounce.
    Deeper,
    /// Allow one bounce fewer.
    Shallower,
    /// Test these lights for shadows.
    Shadows(ShadowMode),
    /// Switch checkerboard reuse on or off.
    ToggleUltra,
}

/// `value` brought into the range from `low` to `high`.
pub open spec fn clamped(value: int, low: int, high: int) -> int {
    if value < low {
        low
    } else if value > high {
        high
    } else {
        value
    }
}

impl RenderState {
    /// The scale is one on offer and the depth limit is within bounds.
    pub open spec fn wf(self) -> bool {
        &&& 1 <= self.scale_factor <= MAX_SCALE
        &&& 1 <= self.max_depth <= MAX_DEPTH
    }

    /// The settings a session starts with: a third of the resolution, no
    /// shadows, two bounces, checkerboard on.
    pub fn new() -> (state: RenderState)
        ensures
            state.wf(),
            state == (RenderState {
                scale_factor: 3,
                shadow_mode: ShadowMode::Off,
                max_depth: 2,
                ultra_mode: true,
                checker_phase: false,
            }),
    {
        RenderState {
            scale_factor: 3,
            shadow_mode: ShadowMode::Off,
            max_depth: 2,
            ultra_mode: true,
            checker_phase: false,
        }
    }

    /// Settings read from a configuration, turned down where the scale or
    /// the depth limit is out of range. The checkerboard starts on the
    /// `false` phase.
    pub fn configured(
        scale_factor: usize,
        shadow_mode: ShadowMode,
        max_depth: i32,
        ultra_mode: bool,
    ) -> (r: Result<RenderState, ConfigError>)
        ensures
            !(1 <= scale_factor <= MAX_SCALE) ==> r == Err::<RenderState, ConfigError>(
                ConfigError::ScaleOutOfRange,
            ),
            1 <= scale_factor <= MAX_SCALE && !(1 <= max_depth <= MAX_DEPTH) ==> r == Err::<
                RenderState,
                ConfigError,
            >(ConfigError::DepthOutOfRange),
            1 <= scale_factor <= MAX_SCALE && 1 <= max_depth <= MAX_DEPTH ==> r == Ok::<
                RenderState,
                ConfigError,
            >(
                RenderState {
                    scale_factor,
                    shadow_mode,
                    max_depth,
                    ultra_mode,
                    checker_phase: false,
                },
            ),
    {
        if scale_factor < 1 || scale_factor > MAX_SCALE {
            return Err(ConfigError::ScaleOutOfRange);
        }
        if max_depth < 1 || max_depth > MAX_DEPTH {
            return Err(ConfigError::DepthOutOfRange);
        }
        Ok(RenderState { scale_factor, shadow_mode, max_depth, ultra_mode, checker_phase: false })
    }

    /// The same settings at another scale, where that scale is on offer.
    pub fn with_scale(self, scale_factor: usize) -> (r: Result<RenderState, ConfigError>)
        ensures
            1 <= scale_factor <= MAX_SCALE ==> r == Ok::<RenderState, ConfigError>(
                RenderState { scale_factor, ..self },
            ),
            !(1 <= scale_factor <= MAX_SCALE) ==> r == Err::<RenderState, ConfigError>(
                ConfigError::ScaleOutOfRange,
            ),
    {
        if scale_factor < 1 || scale_factor > MAX_SCALE {
            return Err(ConfigError::ScaleOutOfRange);
        }
        Ok(RenderState { scale_factor, ..self })
    }

    /// The same settings with another shadow mode.
    pub fn with_shadow_mode(self, shadow_mode: ShadowMode) -> (state: RenderState)
        ensures
            state == (RenderState { shadow_mode, ..self }),
    {
        RenderState { shadow_mode, ..self }
    }

    /// One more bounce, up to `MAX_DEPTH`.
    pub fn deeper(self) -> (state: RenderState)
        ensures
            state == (RenderState {
                max_depth: clamped(self.max_depth + 1, 1, MAX_DEPTH as int) as i32,
                ..self
            }),
            1 <= state.max_depth <= MAX_DEPTH,
    {
        let max_depth: i32 = if self.max_depth >= MAX_DEPTH {
            MAX_DEPTH
        } else if self.max_depth < 0 {
            1
        } else {
            self.max_depth + 1
        };
        RenderState { max_depth, ..self }
    }

    /// One bounce fewer, down to one.
    pub fn shallower(self) -> (state: RenderState)
        ensures
            state == (RenderState {
                max_depth: clamped(self.max_depth - 1, 1, MAX_DEPTH as int) as i32,
                ..self
            }),
            1 <= state.max_depth <= MAX_DEPTH,
    {
        let max_depth: i32 = if self.max_depth <= 1 {
            1
        } else if self.max_depth > MAX_DEPTH {
            MAX_DEPTH
        } else {
            self.max_depth - 1
        };
        RenderState { max_depth, ..self }
    }

    /// Checkerboard reuse switched from on to off or from off to on.
    pub fn toggle_ultra(self) -> (state: RenderState)
        ensures
            state == (RenderState { ultra_mode: !self.ultra_mode, ..self }),
    {
        RenderState { ultra_mode: !self.ultra_mode, ..self }
    }

    /// The settings after a command. A scale that is not on offer changes
    /// nothing.
    pub open spec fn after(self, command: Command) -> RenderState {
        match command {
            Command::Scale(scale_factor) => if 1 <= scale_factor <= MAX_SCALE {
                RenderState { scale_factor, ..self }
            } else {
                self
            },
            Command::Deeper => RenderState {
                max_depth: clamped(self.max_depth + 1, 1, MAX_DEPTH as int) as i32,
                ..self
            },
            Command::Shallower => RenderState {
                max_depth: clamped(self.max_depth - 1, 1, MAX_DEPTH as int) as i32,
                ..self
            },
            Command::Shadows(shadow_mode) => RenderState { shadow_mode, ..self },
            Command::ToggleUltra => RenderState { ultra_mode: !self.ultra_mode, ..self },
        }
    }

    /// Carries out a command.
    pub fn apply(self, command: Command) -> (state: RenderState)
        ensures
            state == self.after(command),
            self.wf() ==> state.wf(),
    {
        match command {
            Command::Scale(scale_factor) => match self.with_scale(scale_factor) {
                Ok(state) => state,
                Err(_) => self,
            },
            Command::Deeper => self.deeper(),
            Command::Shallower => self.shallower(),
            Command::Shadows(shadow_mode) => self.with_shadow_mode(shadow_mode),
            Command::ToggleUltra => self.toggle_ultra(),
        }
    }

    /// The settings for the frame after this one: in checkerboard mode the
    /// phase flips, otherwise nothing changes.
    pub open spec fn next(self) -> RenderState {
        RenderState {
            checker_phase: if self.ultra_mode {
                !self.checker_phase
            } else {
                self.checker_phase
            },
            ..self
        }
    }

    /// The settings for the frame after this one.
    pub fn after_frame(self) -> (state: RenderState)
        ensures
            state == self.next(),
    {
        if self.ultra_mode {
            RenderState { checker_phase: !self.checker_phase, ..self }
        } else {
            self
        }
    }

    /// What the shading of the next frame is told.
    pub fn options(self, far_simplify_distance: Coord) -> (opts: RenderOptions)
        ensures
            opts == (RenderOptions {
                shadow_mode: self.shadow_mode,
                max_depth: self.max_depth,
                far_simplify_distance,
            }),
    {
        RenderOptions {
            shadow_mode: self.shadow_mode,
            max_depth: self.max_depth,
            far_simplify_distance,
        }
    }
}

} // verus!
