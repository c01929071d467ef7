//! The rules of a Flappy Bird round, apart from drawing, sound and motion:
//! reading the sprite-sheet description, looking sprites up by name, the
//! bird's wing-beat animation, crashing, scoring, recycling the scenery that
//! scrolls off screen, and the score's text.
use vstd::prelude::*;

pub mod animation;
pub mod atlas;
pub mod game;
pub mod score_text;
pub mod text;

verus! {

} // verus!
