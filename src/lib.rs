//! A procedurally generated star field in which a player links bright stars
//! into constellations.
//!
//! The library holds the game's logic: a seeded pseudo-random generator
//! ([`rng`]), a uniform grid over the world ([`spatial`]), the generator of
//! the star field ([`generate`]), the link graph and its constellations
//! ([`constellation`]), the per-tick state machine that turns pointer input
//! into links ([`interactive`]), and how a line is drawn ([`line`]).

pub mod constellation;
pub mod generate;
pub mod geometry;
pub mod interactive;
pub mod line;
pub mod rng;
pub mod sky;
pub mod spatial;
pub mod star;

pub use constellation::reachable;
pub use generate::{
    generate_sky, MAX_ADJUSTMENTS_PER_STAR, MAX_PLACEMENT_ATTEMPTS, MAX_PRESET_CONSTELLATION_SIZE,
    MAX_STARS, PRESET_LINE_THRESHOLD, STAR_DIST_DEAD_ZONE_END, STAR_DIST_MAX_FOR_LINE,
    STAR_DIST_MAX_FOR_PRESET_LINE, STAR_DIST_MIN,
};
pub use geometry::isqrt;
pub use interactive::{
    clamp_to_line_reach, Cursor, InteractiveSky, TickInput, CONSTELLATION_THRESHOLD, HIT_RADIUS,
    INITIAL_LIGHT,
};
pub use line::{get_color, line_points};
pub use rng::next_random;
pub use sky::Sky;
pub use spatial::{
    is_in_bounds, neighboring_section_indices, section_index, SECTION_COUNT, SECTION_HEIGHT,
    SECTION_WIDTH, SKY_HEIGHT_SECTIONS, SKY_WIDTH_SECTIONS, WORLD_HEIGHT, WORLD_WIDTH,
};
pub use star::{DraftLine, Link, LinkStyle, Star};
