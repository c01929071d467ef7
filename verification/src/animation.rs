//! A looping sprite animation: a fixed list of sprite indices, shown in turn,
//! one step each time the animation's timer fires.
use vstd::prelude::*;

use crate::atlas::{absent, is_last_index_of, Atlas};

verus! {

/// A looping animation over sprite indices.
pub struct Animation {
    frames: Vec<usize>,
    current: usize,
}

/// The position reached from `start` after `steps` advances around a loop of
/// `len` frames, one step at a time.
pub open spec fn position_after(start: nat, len: nat, steps: nat) -> nat
    decreases steps,
{
    if steps == 0 {
        start
    } else {
        (position_after(start, len, (steps - 1) as nat) + 1) % len
    }
}

impl Animation {
    #[verifier::type_invariant]
    spec fn well_formed(self) -> bool {
        &&& self.frames@.len() > 0
        &&& self.current < self.frames@.len()
    }

    /// The sprite indices, in the order they are shown.
    pub closed spec fn frame_seq(self) -> Seq<usize> {
        self.frames@
    }

    /// Which of the frames is shown now.
    pub closed spec fn position(self) -> nat {
        self.current as nat
    }

    /// An animation over `frames`, showing the first.
    pub fn new(frames: Vec<usize>) -> (a: Animation)
        requires
            frames@.len() > 0,
        ensures
            a.frame_seq() == frames@,
            a.position() == 0,
    {
        Animation { frames, current: 0 }
    }

    /// The sprite index shown now.
    pub fn current_frame(&self) -> (f: usize)
        ensures
            self.position() < self.frame_seq().len(),
            f == self.frame_seq()[self.position() as int],
    {
        proof {
            use_type_invariant(self);
        }
        self.frames[self.current]
    }

    /// Which of the frames is shown now.
    pub fn current(&self) -> (c: usize)
        ensures
            c == self.position(),
            c < self.frame_seq().len(),
    {
        proof {
            use_type_invariant(self);
        }
        self.current
    }

    /// Number of frames.
    pub fn len(&self) -> (n: usize)
        ensures
            n == self.frame_seq().len(),
            n > 0,
    {
        proof {
            use_type_invariant(self);
        }
        self.frames.len()
    }

    /// Steps to the next frame, back to the first after the last, and returns
    /// the sprite index now shown.
    pub fn advance(&mut self) -> (f: usize)
        ensures
            final(self).frame_seq() == old(self).frame_seq(),
            final(self).position() == (old(self).position() + 1) % old(self).frame_seq().len(),
            final(self).position() < final(self).frame_seq().len(),
            f == final(self).frame_seq()[final(self).position() as int],
    {
        proof {
            use_type_invariant(&*self);
        }
        let n = self.frames.len();
        assert(self.current < n);
        let next = (self.current + 1) % n;
        self.current = next;
        self.frames[next]
    }
}

/// Advancing a loop of `len` frames `steps` times from `start` reaches
/// `(start + steps) % len`.
pub proof fn lemma_position_after(start: nat, len: nat, steps: nat)
    requires
        start < len,
    ensures
        position_after(start, len, steps) == (start + steps) % len,
    decreases steps,
{
    if steps == 0 {
        vstd::arithmetic::div_mod::lemma_small_mod(start, len);
    } else {
        lemma_position_after(start, len, (steps - 1) as nat);
        vstd::arithmetic::div_mod::lemma_add_mod_noop_right(
            1,
            (start + steps - 1) as int,
            len as int,
        );
    }
}

/// After as many advances as it has frames, an animation shows the frame it
/// started from.
pub proof fn lemma_full_loop_returns(start: nat, len: nat)
    requires
        start < len,
    ensures
        position_after(start, len, len) == start,
{
    lemma_position_after(start, len, len);
    vstd::arithmetic::div_mod::lemma_mod_add_multiples_vanish(start as int, len as int);
    vstd::arithmetic::div_mod::lemma_small_mod(start, len);
}

/// The name of the bird's `k`-th wing position in the sprite sheet:
/// `bird0_0`, `bird0_1`, `bird0_2`.
pub open spec fn bird_sprite_name(k: nat) -> Seq<char> {
    seq!['b', 'i', 'r', 'd', '0', '_', (('0' as u32) + k) as char]
}

/// The bird's wing beat: up, middle, down, middle.
pub open spec fn flap_order() -> Seq<nat> {
    seq![0nat, 1nat, 2nat, 1nat]
}

fn bird_name(k: u32) -> (name: Vec<char>)
    requires
        k < 3,
    ensures
        name@ == bird_sprite_name(k as nat),
{
    let c = if k == 0 {
        '0'
    } else if k == 1 {
        '1'
    } else {
        '2'
    };
    let name = vec!['b', 'i', 'r', 'd', '0', '_', c];
    assert(name@ =~= bird_sprite_name(k as nat));
    name
}

/// The sprite indices of the bird's wing beat, or `None` when the sheet lacks
/// one of the three bird sprites.
pub fn bird_flap_frames(atlas: &Atlas) -> (frames: Option<Vec<usize>>)
    ensures
        match frames {
            Some(f) => {
                &&& f@.len() == 4
                &&& forall|i: int|
                    0 <= i < 4 ==> is_last_index_of(
                        atlas@,
                        bird_sprite_name(flap_order()[i]),
                        #[trigger] f@[i] as int,
                    )
            },
            None => exists|k: nat| k < 3 && absent(atlas@, #[trigger] bird_sprite_name(k)),
        },
{
    let up = match atlas.index_of(&bird_name(0)) {
        Some(i) => i,
        None => return None,
    };
    let middle = match atlas.index_of(&bird_name(1)) {
        Some(i) => i,
        None => return None,
    };
    let down = match atlas.index_of(&bird_name(2)) {
        Some(i) => i,
        None => return None,
    };
    let frames = vec![up, middle, down, middle];
    assert(flap_order()[0] == 0 && flap_order()[1] == 1 && flap_order()[2] == 2 && flap_order()[3]
        == 1);
    Some(frames)
}

} // verus!
