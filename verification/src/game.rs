//! The rules of a round: when the bird may flap, when the world scrolls, what
//! a collision does, how passing pipes scores, and how ground tiles and pipe
//! pairs that leave the screen are replaced.
use vstd::prelude::*;

verus! {

/// When set, collisions are recorded but never end the round.
pub const INVINCIBLE: bool = false;

/// The state of a round: whether the bird has crashed, and the score.
pub struct GameState {
    /// Set by the first collision; never cleared.
    pub dead: bool,
    /// Pipe pairs passed.
    pub score: u32,
}

/// How many entries of `s` are `true`.
pub open spec fn count_true(s: Seq<bool>) -> nat
    decreases s.len(),
{
    if s.len() == 0 {
        0
    } else {
        count_true(s.drop_last()) + if s.last() {
            1nat
        } else {
            0nat
        }
    }
}

/// The positions of the `true` entries of `s`, in increasing order.
pub open spec fn true_positions(s: Seq<bool>) -> Seq<int>
    decreases s.len(),
{
    if s.len() == 0 {
        seq![]
    } else if s.last() {
        true_positions(s.drop_last()).push(s.len() - 1)
    } else {
        true_positions(s.drop_last())
    }
}

/// Which pipe pairs are marked as passed after a frame in which those in
/// `crossed` are behind the bird, given those marked in `passed` before.
pub open spec fn marks_after(passed: Seq<bool>, crossed: Seq<bool>) -> Seq<bool> {
    Seq::new(passed.len(), |i: int| passed[i] || crossed[i])
}

/// Which pipe pairs score in that frame: those behind the bird and not yet
/// marked as passed.
pub open spec fn fresh_passes(passed: Seq<bool>, crossed: Seq<bool>) -> Seq<bool> {
    Seq::new(passed.len(), |i: int| crossed[i] && !passed[i])
}

/// Whether some entry of `s` is `true`.
pub open spec fn any_true(s: Seq<bool>) -> bool {
    exists|i: int| 0 <= i < s.len() && s[i]
}

/// Whether a frame whose collision tests are `hits` crashes a bird with
/// `dead` as given: only a living bird crashes, on a hit, when not invincible.
/// A crash flashes the screen and plays the hit sound, then the die sound.
pub open spec fn crash_now(dead: bool, hits: Seq<bool>) -> bool {
    !dead && !INVINCIBLE && any_true(hits)
}

/// Whether the bird is dead after a frame whose collision tests are `hits`.
pub open spec fn dead_after(dead: bool, hits: Seq<bool>) -> bool {
    dead || crash_now(dead, hits)
}

/// Whether the bird flaps on a press of the flap key.
pub open spec fn flap_allowed(dead: bool, flap_just_pressed: bool) -> bool {
    flap_just_pressed && !dead
}

/// Whether obstacles scroll.
pub open spec fn scrolling(dead: bool) -> bool {
    !dead
}

/// Passing pipes scores one point per pair passed, and marks exactly the
/// pairs passed, each once, in order.
pub proof fn lemma_true_positions(s: Seq<bool>)
    ensures
        true_positions(s).len() == count_true(s),
        forall|k: int|
            0 <= k < true_positions(s).len() ==> 0 <= #[trigger] true_positions(s)[k] < s.len()
                && s[true_positions(s)[k]],
        forall|k: int, l: int|
            0 <= k < l < true_positions(s).len() ==> #[trigger] true_positions(s)[k]
                < #[trigger] true_positions(s)[l],
        forall|i: int| 0 <= i < s.len() && s[i] ==> true_positions(s).contains(i),
    decreases s.len(),
{
    if s.len() > 0 {
        let p = s.drop_last();
        lemma_true_positions(p);
        assert forall|i: int| 0 <= i < s.len() && s[i] implies true_positions(s).contains(i) by {
            if i < s.len() - 1 {
                assert(p[i] == s[i]);
                let k = choose|k: int| 0 <= k < true_positions(p).len() && true_positions(p)[k] == i;
                assert(true_positions(s)[k] == i);
            } else {
                assert(true_positions(s).last() == i);
            }
        }
    }
}

/// A crash happens once in a round: after a frame that crashes the bird, it
/// is dead, and no later frame crashes it again.
pub proof fn lemma_crash_happens_once(dead: bool, first: Seq<bool>, later: Seq<bool>)
    requires
        crash_now(dead, first),
    ensures
        dead_after(dead, first),
        !crash_now(dead_after(dead, first), later),
        dead_after(dead_after(dead, first), later),
{
}

/// A dead bird stays dead, cannot flap, and the world no longer scrolls.
pub proof fn lemma_dead_bird_is_inert(hits: Seq<bool>, flap_just_pressed: bool)
    ensures
        dead_after(true, hits),
        !crash_now(true, hits),
        !flap_allowed(true, flap_just_pressed),
        !scrolling(true),
{
}

impl GameState {
    /// A new round: the bird is alive and the score is zero.
    pub fn new() -> (g: GameState)
        ensures
            !g.dead,
            g.score == 0,
    {
        GameState { dead: false, score: 0 }
    }

    /// Whether a press of the flap key this frame makes the bird flap: only
    /// while it is alive.
    pub fn flaps(&self, flap_just_pressed: bool) -> (r: bool)
        ensures
            r == flap_allowed(self.dead, flap_just_pressed),
    {
        flap_just_pressed && !self.dead
    }

    /// Whether pipes and ground scroll this frame: only while the bird is alive.
    pub fn world_scrolls(&self) -> (r: bool)
        ensures
            r == scrolling(self.dead),
    {
        !self.dead
    }

    /// Takes this frame's collision tests, one per obstacle, in order, and
    /// returns whether the crash takes effect now. It does at the first hit
    /// of a living bird, unless invincible; the bird is dead from then on.
    pub fn register_hits(&mut self, hits: &Vec<bool>) -> (crashed: bool)
        ensures
            crashed == crash_now(old(self).dead, hits@),
            final(self).dead == dead_after(old(self).dead, hits@),
            final(self).score == old(self).score,
    {
        let mut crashed = false;
        let n = hits.len();
        for i in 0..n
            invariant
                n == hits@.len(),
                self.score == old(self).score,
                crashed == (!old(self).dead && !INVINCIBLE && exists|j: int|
                    0 <= j < i && hits@[j]),
                self.dead == (old(self).dead || crashed),
        {
            if hits[i] && !INVINCIBLE {
                if !self.dead {
                    crashed = true;
                    self.dead = true;
                }
            }
        }
        crashed
    }

    /// Takes, for each pipe pair not yet passed, whether the bird has now
    /// passed it; adds one point per passed pair and returns their positions
    /// in `passed`, in increasing order, so that each is marked as passed.
    pub fn score_passes(&mut self, passed: &Vec<bool>) -> (newly: Vec<usize>)
        requires
            old(self).score + count_true(passed@) <= u32::MAX,
        ensures
            final(self).score == old(self).score + count_true(passed@),
            final(self).dead == old(self).dead,
            newly@.map_values(|i: usize| i as int) == true_positions(passed@),
            newly@.len() == count_true(passed@),
    {
        let mut newly: Vec<usize> = Vec::new();
        let n = passed.len();
        proof {
            assert(passed@.take(0) =~= seq![]);
        }
        for i in 0..n
            invariant
                n == passed@.len(),
                self.dead == old(self).dead,
                old(self).score + count_true(passed@) <= u32::MAX,
                self.score == old(self).score + count_true(passed@.take(i as int)),
                newly@.map_values(|k: usize| k as int) == true_positions(passed@.take(i as int)),
        {
            proof {
                let t = passed@.take(i + 1);
                assert(t.drop_last() =~= passed@.take(i as int));
                lemma_count_prefix_bound(passed@, i + 1);
            }
            if passed[i] {
                self.score = self.score + 1;
                newly.push(i);
                assert(newly@.map_values(|k: usize| k as int) =~= true_positions(
                    passed@.take(i as int),
                ).push(i as int));
            }
        }
        proof {
            assert(passed@.take(n as int) =~= passed@);
            lemma_true_positions(passed@);
            assert(newly@.len() == newly@.map_values(|k: usize| k as int).len());
        }
        newly
    }
}

/// How many pipe pairs in `passed` the bird has passed.
pub fn count_passed(passed: &Vec<bool>) -> (n: usize)
    ensures
        n == count_true(passed@),
{
    let mut n: usize = 0;
    let len = passed.len();
    for i in 0..len
        invariant
            len == passed@.len(),
            n == count_true(passed@.take(i as int)),
            n <= i,
    {
        assert(passed@.take(i + 1).drop_last() =~= passed@.take(i as int));
        if passed[i] {
            n = n + 1;
        }
    }
    assert(passed@.take(len as int) =~= passed@);
    n
}

impl GameState {
    /// Scores the pipe pairs that the bird has passed this frame: `passed`
    /// tells, for each top pipe, whether it is already marked as passed, and
    /// `crossed` whether it is now behind the bird. Each pair behind the bird
    /// and not yet marked scores one point and is marked; their positions are
    /// returned in increasing order.
    pub fn mark_passed_pipes(&mut self, passed: &mut Vec<bool>, crossed: &Vec<bool>) -> (newly:
        Vec<usize>)
        requires
            old(passed)@.len() == crossed@.len(),
            old(self).score + count_true(fresh_passes(old(passed)@, crossed@)) <= u32::MAX,
        ensures
            final(passed)@ == marks_after(old(passed)@, crossed@),
            final(self).score == old(self).score + count_true(fresh_passes(old(passed)@, crossed@)),
            final(self).dead == old(self).dead,
            newly@.map_values(|i: usize| i as int) == true_positions(
                fresh_passes(old(passed)@, crossed@),
            ),
    {
        let ghost before = passed@;
        let mut fresh: Vec<bool> = Vec::new();
        let n = crossed.len();
        for i in 0..n
            invariant
                n == crossed@.len(),
                n == before.len(),
                passed@.len() == n,
                fresh@.len() == i,
                forall|j: int| 0 <= j < i ==> #[trigger] fresh@[j] == (crossed@[j] && !before[j]),
                forall|j: int| 0 <= j < i ==> #[trigger] passed@[j] == (before[j] || crossed@[j]),
                forall|j: int| i <= j < n ==> #[trigger] passed@[j] == before[j],
        {
            let was = passed[i];
            fresh.push(crossed[i] && !was);
            passed.set(i, was || crossed[i]);
        }
        assert(fresh@ =~= fresh_passes(before, crossed@));
        assert(passed@ =~= marks_after(before, crossed@));
        self.score_passes(&fresh)
    }
}

/// How many pipe pairs would score this frame: those behind the bird and not
/// yet marked as passed.
pub fn count_fresh_passes(passed: &Vec<bool>, crossed: &Vec<bool>) -> (n: usize)
    requires
        passed@.len() == crossed@.len(),
    ensures
        n == count_true(fresh_passes(passed@, crossed@)),
{
    let mut fresh: Vec<bool> = Vec::new();
    let len = crossed.len();
    for i in 0..len
        invariant
            len == crossed@.len(),
            len == passed@.len(),
            fresh@.len() == i,
            forall|j: int| 0 <= j < i ==> #[trigger] fresh@[j] == (crossed@[j] && !passed@[j]),
    {
        fresh.push(crossed[i] && !passed[i]);
    }
    assert(fresh@ =~= fresh_passes(passed@, crossed@));
    count_passed(&fresh)
}

proof fn lemma_count_none(s: Seq<bool>)
    requires
        forall|i: int| 0 <= i < s.len() ==> !s[i],
    ensures
        count_true(s) == 0,
        true_positions(s) == Seq::<int>::empty(),
    decreases s.len(),
{
    if s.len() > 0 {
        lemma_count_none(s.drop_last());
    }
}

/// A pipe pair scores at most once: in a later frame with the same pairs
/// behind the bird, nothing scores, nothing more is marked.
pub proof fn lemma_pipe_scores_once(passed: Seq<bool>, crossed: Seq<bool>)
    requires
        passed.len() == crossed.len(),
    ensures
        count_true(fresh_passes(marks_after(passed, crossed), crossed)) == 0,
        true_positions(fresh_passes(marks_after(passed, crossed), crossed)) == Seq::<int>::empty(),
        marks_after(marks_after(passed, crossed), crossed) == marks_after(passed, crossed),
{
    let after = marks_after(passed, crossed);
    lemma_count_none(fresh_passes(after, crossed));
    assert(marks_after(after, crossed) =~= after);
}

/// A living bird that is not invincible crashes when any one of the frame's
/// collision tests is a hit, whichever obstacle it is; and a crash needs a
/// living bird and a hit, so a frame without hits leaves the bird as it was.
pub proof fn lemma_any_hit_crashes(dead: bool, hits: Seq<bool>, i: int)
    requires
        0 <= i < hits.len(),
        hits[i],
        !INVINCIBLE,
    ensures
        crash_now(false, hits),
        dead_after(false, hits),
        dead_after(dead, hits),
        crash_now(dead, hits) <==> !dead,
{
}

/// What a crash needs: a bird alive before, and some hit among the tests.
pub proof fn lemma_crash_needs_a_hit(dead: bool, hits: Seq<bool>)
    ensures
        crash_now(dead, hits) ==> !dead && exists|i: int| 0 <= i < hits.len() && #[trigger] hits[i],
        (forall|i: int| 0 <= i < hits.len() ==> !#[trigger] hits[i]) ==> !crash_now(dead, hits)
            && dead_after(dead, hits) == dead,
        (!dead && !INVINCIBLE && exists|i: int| 0 <= i < hits.len() && #[trigger] hits[i])
            ==> crash_now(dead, hits),
{
}

/// The sweep acts on an entity only by the edges it has passed: a ground
/// tile is removed and replaced exactly when past the ground edge, a pipe is
/// removed exactly when past the pipe edge, a new pair comes exactly when a
/// top pipe is removed, and an entity past no edge is left alone.
pub proof fn lemma_recycle_by_edges(
    ground: bool,
    pipe: bool,
    pipe_top: bool,
    past_ground_edge: bool,
    past_pipe_edge: bool,
)
    ensures
        ({
            let r = recycle_spec(ground, pipe, pipe_top, past_ground_edge, past_pipe_edge);
            &&& r.spawn_ground <==> (ground && past_ground_edge)
            &&& r.spawn_pipe_pair <==> (pipe && pipe_top && past_pipe_edge)
            &&& !past_ground_edge ==> !r.spawn_ground
            &&& !past_pipe_edge ==> !r.spawn_pipe_pair
            &&& (!past_ground_edge && !past_pipe_edge) ==> r.despawns == 0
            &&& (ground && !pipe) ==> (r.despawns == 1 <==> past_ground_edge)
            &&& (ground && !pipe) ==> (r.despawns == 0 <==> !past_ground_edge)
            &&& (pipe && !ground) ==> (r.despawns == 1 <==> past_pipe_edge)
            &&& (pipe && !ground) ==> (r.despawns == 0 <==> !past_pipe_edge)
            &&& (!ground && !pipe) ==> r.despawns == 0
            &&& (ground && pipe && past_ground_edge && past_pipe_edge) ==> r.despawns == 2
        }),
{
}

/// Only pairs behind the bird get marked, every such pair is marked, and
/// marks are never taken away; a pair scores exactly when it is behind the
/// bird and was not marked; and the marks gained equal the points scored.
pub proof fn lemma_marks_follow_crossings(passed: Seq<bool>, crossed: Seq<bool>)
    requires
        passed.len() == crossed.len(),
    ensures
        marks_after(passed, crossed).len() == passed.len(),
        fresh_passes(passed, crossed).len() == passed.len(),
        forall|i: int|
            0 <= i < passed.len() ==> (#[trigger] marks_after(passed, crossed)[i] <==> (passed[i]
                || crossed[i])),
        forall|i: int|
            0 <= i < passed.len() ==> (#[trigger] fresh_passes(passed, crossed)[i] <==> (
            crossed[i] && !passed[i])),
        count_true(marks_after(passed, crossed)) == count_true(passed) + count_true(
            fresh_passes(passed, crossed),
        ),
    decreases passed.len(),
{
    if passed.len() > 0 {
        let p = passed.drop_last();
        let c = crossed.drop_last();
        lemma_marks_follow_crossings(p, c);
        assert(marks_after(passed, crossed).drop_last() =~= marks_after(p, c));
        assert(fresh_passes(passed, crossed).drop_last() =~= fresh_passes(p, c));
    }
}

proof fn lemma_count_prefix_bound(s: Seq<bool>, k: int)
    requires
        0 <= k <= s.len(),
    ensures
        count_true(s.take(k)) <= count_true(s),
    decreases s.len() - k,
{
    if k < s.len() {
        lemma_count_prefix_bound(s, k + 1);
        assert(s.take(k + 1).drop_last() =~= s.take(k));
    } else {
        assert(s.take(k) =~= s);
    }
}

/// What happens to one entity in the sweep for entities that left the
/// screen on the left.
pub struct Recycle {
    /// How many despawn commands are issued for the entity (a ground tile
    /// and a pipe past their edges each issue one).
    pub despawns: u8,
    /// Whether a new ground tile is spawned at the right edge.
    pub spawn_ground: bool,
    /// Whether a new pipe pair is spawned at the right edge.
    pub spawn_pipe_pair: bool,
}

/// What the sweep does with an entity that is a ground tile, a pipe, and the
/// top pipe of its pair as given, with `past_ground_edge` and `past_pipe_edge`
/// telling whether it has moved past the point where a ground tile, or a
/// pipe, is wholly off screen: a ground tile past its edge is removed and
/// replaced by a new one, a pipe past its edge is removed, and a removed top
/// pipe brings a new pair.
pub open spec fn recycle_spec(
    ground: bool,
    pipe: bool,
    pipe_top: bool,
    past_ground_edge: bool,
    past_pipe_edge: bool,
) -> Recycle {
    Recycle {
        despawns: ((if ground && past_ground_edge {
            1int
        } else {
            0int
        }) + (if pipe && past_pipe_edge {
            1int
        } else {
            0int
        })) as u8,
        spawn_ground: ground && past_ground_edge,
        spawn_pipe_pair: pipe && past_pipe_edge && pipe_top,
    }
}

/// Decides what the sweep for entities that left the screen does with one
/// entity (see `recycle_spec`).
pub fn recycle(
    ground: bool,
    pipe: bool,
    pipe_top: bool,
    past_ground_edge: bool,
    past_pipe_edge: bool,
) -> (r: Recycle)
    ensures
        r == recycle_spec(ground, pipe, pipe_top, past_ground_edge, past_pipe_edge),
{
    let mut despawns: u8 = 0;
    let mut spawn_ground = false;
    let mut spawn_pipe_pair = false;
    if ground && past_ground_edge {
        despawns = despawns + 1;
        spawn_ground = true;
    }
    if pipe && past_pipe_edge {
        despawns = despawns + 1;
        if pipe_top {
            spawn_pipe_pair = true;
        }
    }
    Recycle { despawns, spawn_ground, spawn_pipe_pair }
}

/// The sweep keeps the number of ground tiles and of pipe pairs: a ground
/// tile is removed exactly when a new one is spawned, and a new pipe pair is
/// spawned exactly when the top pipe of a pair is removed, never for a bottom
/// pipe.
pub proof fn lemma_recycling_keeps_counts(
    pipe_top: bool,
    past_ground_edge: bool,
    past_pipe_edge: bool,
)
    ensures
        ({
            let r = recycle_spec(true, false, false, past_ground_edge, past_pipe_edge);
            r.spawn_ground <==> r.despawns == 1
        }),
        ({
            let r = recycle_spec(false, true, true, past_ground_edge, past_pipe_edge);
            r.spawn_pipe_pair <==> r.despawns == 1
        }),
        !recycle_spec(false, true, false, past_ground_edge, past_pipe_edge).spawn_pipe_pair,
        !recycle_spec(false, true, pipe_top, past_ground_edge, past_pipe_edge).spawn_ground,
{
}

} // verus!
