use vstd::prelude::*;
use crate::color::Color;
use crate::image::ImageDimension;
use crate::tiles::{ImageLevelIter, Tile, TileIter, tile_at, tile_count};

verus! {

/// What the render worker does next.
#[derive(Clone, Copy, Debug, PartialEq, Eq, Structural)]
pub enum Step {
    /// Compute the colour of the tile's anchor pixel and paint the whole tile.
    Paint(Tile),
    /// Every tile of the current level has been painted.
    LevelComplete,
    /// The render is over; nothing follows.
    Finish,
}

/// An event of a progressive render, as the consumer receives it.
#[derive(Clone, Copy, Debug, PartialEq, Eq, Structural)]
pub enum Event {
    SetPixels { x: usize, y: usize, w: usize, h: usize, color: Color },
    Update,
    Finish,
}

impl Step {
    /// The event that reports this step; `color` is the colour of a painted tile.
    pub fn to_event(&self, color: Color) -> (e: Event)
        ensures
            e == match *self {
                Step::Paint(t) => Event::SetPixels { x: t.x, y: t.y, w: t.w, h: t.h, color },
                Step::LevelComplete => Event::Update,
                Step::Finish => Event::Finish,
            },
    {
        match self {
            Step::Paint(t) => Event::SetPixels { x: t.x, y: t.y, w: t.w, h: t.h, color },
            Step::LevelComplete => Event::Update,
            Step::Finish => Event::Finish,
        }
    }
}

/// The tile edge after `k` halvings of `ts`.
pub open spec fn halve(ts: nat, k: nat) -> nat
    decreases k,
{
    if k == 0 {
        ts
    } else {
        halve(ts, (k - 1) as nat) / 2
    }
}

/// The number of levels that start with tile edge `ts`: one per halving
/// until the edge is zero.
pub open spec fn level_count(ts: nat) -> nat
    decreases ts,
{
    if ts == 0 {
        0
    } else {
        1 + level_count(ts / 2)
    }
}

/// The paint steps of one level with tile edge `ts`, in tile order.
pub open spec fn level_paints(ts: nat, width: nat, height: nat) -> Seq<Step> {
    Seq::new(tile_count(ts, width, height), |k: int| Step::Paint(tile_at(ts, width, height, k as nat)))
}

/// The steps of the first `k` levels of a session whose first level has tile
/// edge `ts`: each level's paints, then its completion.
pub open spec fn completed_levels(ts: nat, width: nat, height: nat, k: nat) -> Seq<Step>
    decreases k,
{
    if k == 0 {
        Seq::empty()
    } else {
        completed_levels(ts, width, height, (k - 1) as nat) + level_paints(
            halve(ts, (k - 1) as nat),
            width,
            height,
        ).push(Step::LevelComplete)
    }
}

/// Every step of a session that completed `k` levels: those levels, then the
/// paints of the level during which the stop was seen (none once every level
/// is done), then the finish.
pub open spec fn session_steps(ts: nat, width: nat, height: nat, k: nat) -> Seq<Step> {
    completed_levels(ts, width, height, k) + level_paints(halve(ts, k), width, height).push(
        Step::Finish,
    )
}

/// The decisions of a progressive render: which tile to paint next, when a
/// level is complete, and when the render is over. A stop request is honoured
/// at the end of the current level only.
pub struct TileScheduler {
    /// The levels not started yet.
    pub levels: ImageLevelIter,
    /// The tiles of the current level, while `in_level` holds.
    pub tiles: TileIter,
    pub in_level: bool,
    pub stop_requested: bool,
    /// Whether the finish has been handed out.
    pub finished: bool,
    /// Tile edge of the first level.
    pub first_tile_size: Ghost<nat>,
    /// Number of levels completed so far.
    pub levels_done: Ghost<nat>,
    /// Every step handed out so far.
    pub history: Ghost<Seq<Step>>,
}

impl TileScheduler {
    /// Width of the frame.
    pub open spec fn width(&self) -> nat {
        self.levels.width as nat
    }

    /// Height of the frame.
    pub open spec fn height(&self) -> nat {
        self.levels.height as nat
    }

    /// The steps handed out so far follow the session's model.
    pub open spec fn wf(&self) -> bool {
        let ts = self.first_tile_size@;
        let k = self.levels_done@;
        let w = self.width();
        let h = self.height();
        &&& k <= level_count(ts)
        &&& if self.finished {
            self.history@ == session_steps(ts, w, h, k)
        } else if self.in_level {
            &&& k < level_count(ts)
            &&& self.levels.tile_size == halve(ts, k + 1)
            &&& self.tiles.wf()
            &&& self.tiles.tile_size == halve(ts, k)
            &&& self.tiles.width == w
            &&& self.tiles.height == h
            &&& self.history@ == completed_levels(ts, w, h, k) + level_paints(
                halve(ts, k),
                w,
                h,
            ).take(self.tiles.position() as int)
        } else {
            &&& self.levels.tile_size == halve(ts, k)
            &&& self.history@ == completed_levels(ts, w, h, k)
        }
    }

    /// The number of tiles of the current level handed out so far.
    pub open spec fn level_position(&self) -> nat {
        if self.in_level {
            self.tiles.position()
        } else {
            0
        }
    }

    /// The step that comes next: the next tile of the current level; at its
    /// end, the finish if a stop was requested and the level's completion
    /// otherwise; and the finish once no level is left.
    pub open spec fn expected_step(&self) -> Step {
        let ts = halve(self.first_tile_size@, self.levels_done@);
        let paints = level_paints(ts, self.width(), self.height());
        let pos = self.level_position() as int;
        if !self.in_level && ts == 0 {
            Step::Finish
        } else if pos < paints.len() {
            paints[pos]
        } else if self.stop_requested {
            Step::Finish
        } else {
            Step::LevelComplete
        }
    }

    /// An upper bound on the number of steps still to come.
    pub open spec fn steps_left(&self) -> nat {
        if self.finished {
            0
        } else {
            let ts = self.first_tile_size@;
            (session_steps(ts, self.width(), self.height(), level_count(ts)).len()
                - self.history@.len()) as nat
        }
    }

    /// A scheduler for a frame of the given size, before its first step.
    pub fn new(dim: &ImageDimension) -> (r: TileScheduler)
        ensures
            r.wf(),
            r.width() == dim.width,
            r.height() == dim.height,
            r.first_tile_size@ == crate::image::FIRST_TILE_SIZE,
            r.history@ == Seq::<Step>::empty(),
            !r.stop_requested,
            !r.finished,
    {
        let levels = dim.levels();
        let tiles = TileIter {
            tile_size: 1,
            x: 0,
            y: 0,
            width: dim.width,
            height: dim.height,
            is_init: false,
            in_even_row: true,
        };
        TileScheduler {
            levels,
            tiles,
            in_level: false,
            stop_requested: false,
            finished: false,
            first_tile_size: Ghost(levels.tile_size as nat),
            levels_done: Ghost(0),
            history: Ghost(Seq::empty()),
        }
    }

    /// Asks the render to stop at the end of the current level.
    pub fn request_stop(&mut self)
        requires
            old(self).wf(),
        ensures
            final(self).wf(),
            *final(self) == (TileScheduler { stop_requested: true, ..*old(self) }),
    {
        self.stop_requested = true;
    }

    /// Whether the finish has been handed out.
    pub fn is_finished(&self) -> (r: bool)
        ensures
            r == self.finished,
    {
        self.finished
    }

    /// The next step of the render, or `None` after the finish.
    pub fn next_step(&mut self) -> (r: Option<Step>)
        requires
            old(self).wf(),
        ensures
            final(self).wf(),
            final(self).levels.width == old(self).levels.width,
            final(self).levels.height == old(self).levels.height,
            final(self).first_tile_size == old(self).first_tile_size,
            final(self).stop_requested == old(self).stop_requested,
            old(self).finished ==> r.is_none() && *final(self) == *old(self),
            !old(self).finished ==> r == Some(old(self).expected_step()),
            !old(self).finished ==> final(self).history@ == old(self).history@.push(r.unwrap())
                && final(self).steps_left() < old(self).steps_left(),
            r matches Some(Step::Paint(_)) ==> final(self).in_level && final(self).level_position()
                == old(self).level_position() + 1 && final(self).levels_done == old(self).levels_done,
            r == Some(Step::LevelComplete) ==> !final(self).in_level && final(self).levels_done@
                == old(self).levels_done@ + 1,
            final(self).finished <==> (old(self).finished || r == Some(Step::Finish)),
            r == Some(Step::LevelComplete) ==> !old(self).stop_requested,
            r == Some(Step::Finish) && !old(self).stop_requested ==> final(self).levels_done@
                == level_count(final(self).first_tile_size@),
    {
        if self.finished {
            return None;
        }
        let ghost ts = self.first_tile_size@;
        let ghost w = self.width();
        let ghost h = self.height();
        proof {
            lemma_history_bound(*self);
            lemma_halve_positive(ts, self.levels_done@);
        }
        if !self.in_level {
            match self.levels.next() {
                Some(level) => {
                    self.tiles = level.tiles();
                    self.in_level = true;
                    proof {
                        let k = self.levels_done@;
                        assert(level_paints(halve(ts, k), w, h).take(0) =~= Seq::<Step>::empty());
                        assert(self.history@ =~= completed_levels(ts, w, h, k) + level_paints(
                            halve(ts, k),
                            w,
                            h,
                        ).take(0));
                    }
                },
                None => {
                    self.finished = true;
                    let ghost prev = self.history@;
                    self.history = Ghost(self.history@.push(Step::Finish));
                    proof {
                        let k = self.levels_done@;
                        assert(level_paints(halve(ts, k), w, h) =~= Seq::<Step>::empty());
                        assert(self.history@ =~= session_steps(ts, w, h, k));
                    }
                    return Some(Step::Finish);
                },
            }
        }
        let ghost k = self.levels_done@;
        let ghost paints = level_paints(halve(ts, k), w, h);
        let ghost pos = self.tiles.position();
        match self.tiles.next() {
            Some(tile) => {
                self.history = Ghost(self.history@.push(Step::Paint(tile)));
                proof {
                    assert(paints.take(pos + 1 as int) =~= paints.take(pos as int).push(Step::Paint(tile)));
                    assert(self.history@ =~= completed_levels(ts, w, h, k) + paints.take(
                        self.tiles.position() as int,
                    ));
                    lemma_history_bound(*self);
                }
                Some(Step::Paint(tile))
            },
            None => {
                self.in_level = false;
                proof {
                    assert(paints.take(pos as int) =~= paints);
                }
                if self.stop_requested {
                    self.finished = true;
                    self.history = Ghost(self.history@.push(Step::Finish));
                    proof {
                        assert(self.history@ =~= session_steps(ts, w, h, k));
                    }
                    Some(Step::Finish)
                } else {
                    self.levels_done = Ghost(k + 1);
                    self.history = Ghost(self.history@.push(Step::LevelComplete));
                    proof {
                        assert(self.history@ =~= completed_levels(ts, w, h, k + 1));
                        lemma_history_bound(*self);
                    }
                    Some(Step::LevelComplete)
                }
            },
        }
    }
}

/// A level of a frame with at least one pixel has at least one tile.
proof fn lemma_level_has_tiles(ts: nat, width: nat, height: nat)
    requires
        ts > 0,
        width > 0,
        height > 0,
    ensures
        tile_count(ts, width, height) > 0,
{
    vstd::arithmetic::div_mod::lemma_div_by_self(ts as int);
    vstd::arithmetic::div_mod::lemma_div_is_ordered(ts as int, (width + ts - 1) as int, ts as int);
    vstd::arithmetic::div_mod::lemma_div_is_ordered(ts as int, (height + ts - 1) as int, ts as int);
    let c = crate::tiles::tile_cols(ts, width);
    let r = crate::tiles::tile_rows(ts, height);
    assert(c * r > 0) by (nonlinear_arith)
        requires
            c >= 1,
            r >= 1,
    ;
}

/// The completed levels hold no finish, and, for a frame with at least one
/// pixel, each level completion directly follows a paint.
proof fn lemma_completed_shape(ts: nat, width: nat, height: nat, k: nat)
    requires
        k <= level_count(ts),
    ensures
        forall|i: int|
            0 <= i < completed_levels(ts, width, height, k).len() ==> #[trigger] completed_levels(
                ts,
                width,
                height,
                k,
            )[i] != Step::Finish,
        width * height > 0 ==> forall|i: int|
            0 <= i < completed_levels(ts, width, height, k).len() && #[trigger] completed_levels(
                ts,
                width,
                height,
                k,
            )[i] == Step::LevelComplete ==> i > 0 && completed_levels(ts, width, height, k)[i
                - 1] is Paint,
    decreases k,
{
    if k > 0 {
        let j = (k - 1) as nat;
        lemma_completed_shape(ts, width, height, j);
        lemma_halve_positive(ts, j);
        let prev = completed_levels(ts, width, height, j);
        let paints = level_paints(halve(ts, j), width, height);
        let all = completed_levels(ts, width, height, k);
        assert(all == prev + paints.push(Step::LevelComplete));
        if width * height > 0 {
            assert(width > 0 && height > 0) by (nonlinear_arith)
                requires
                    width * height > 0,
            ;
            lemma_level_has_tiles(halve(ts, j), width, height);
        }
        assert forall|i: int| 0 <= i < all.len() implies #[trigger] all[i] != Step::Finish by {
            if i >= prev.len() && i < prev.len() + paints.len() {
                assert(all[i] == paints[i - prev.len()]);
            }
        }
        if width * height > 0 {
            assert forall|i: int| 0 <= i < all.len() && #[trigger] all[i] == Step::LevelComplete implies i
                > 0 && all[i - 1] is Paint by {
                if i < prev.len() {
                    assert(all[i] == prev[i]);
                    assert(all[i - 1] == prev[i - 1]);
                } else if i < prev.len() + paints.len() {
                    assert(all[i] == paints[i - prev.len()]);
                } else {
                    assert(all[i - 1] == paints[paints.len() - 1]);
                }
            }
        }
    }
}

/// A session, whenever it was stopped, hands out exactly one finish, as its
/// last step; and for a frame with at least one pixel, every level completion
/// directly follows a paint of that level.
pub proof fn lemma_session_finishes_once(ts: nat, width: nat, height: nat, k: nat)
    requires
        k <= level_count(ts),
    ensures
        session_steps(ts, width, height, k).len() > 0,
        session_steps(ts, width, height, k).last() == Step::Finish,
        forall|i: int|
            0 <= i < session_steps(ts, width, height, k).len() - 1 ==> #[trigger] session_steps(
                ts,
                width,
                height,
                k,
            )[i] != Step::Finish,
        width * height > 0 ==> forall|i: int|
            0 <= i < session_steps(ts, width, height, k).len() && #[trigger] session_steps(
                ts,
                width,
                height,
                k,
            )[i] == Step::LevelComplete ==> i > 0 && session_steps(ts, width, height, k)[i
                - 1] is Paint,
{
    lemma_completed_shape(ts, width, height, k);
    let prev = completed_levels(ts, width, height, k);
    let paints = level_paints(halve(ts, k), width, height);
    let all = session_steps(ts, width, height, k);
    assert(all == prev + paints.push(Step::Finish));
    assert forall|i: int| 0 <= i < all.len() - 1 implies #[trigger] all[i] != Step::Finish by {
        if i < prev.len() {
            assert(all[i] == prev[i]);
        } else {
            assert(all[i] == paints[i - prev.len()]);
        }
    }
    if width * height > 0 {
        assert forall|i: int| 0 <= i < all.len() && #[trigger] all[i] == Step::LevelComplete implies i
            > 0 && all[i - 1] is Paint by {
            if i < prev.len() {
                assert(all[i] == prev[i]);
                assert(all[i - 1] == prev[i - 1]);
            } else if i < prev.len() + paints.len() {
                assert(all[i] == paints[i - prev.len()]);
            }
        }
    }
}

/// A scheduler that has finished has handed out exactly one finish, as its
/// last step, after zero or more complete levels; and for a frame with at
/// least one pixel, every level completion directly follows a paint.
pub proof fn lemma_finished_history(s: TileScheduler)
    requires
        s.wf(),
        s.finished,
    ensures
        s.levels_done@ <= level_count(s.first_tile_size@),
        s.history@ == session_steps(s.first_tile_size@, s.width(), s.height(), s.levels_done@),
        s.history@.len() > 0,
        s.history@.last() == Step::Finish,
        forall|i: int| 0 <= i < s.history@.len() - 1 ==> #[trigger] s.history@[i] != Step::Finish,
        s.width() * s.height() > 0 ==> forall|i: int|
            0 <= i < s.history@.len() && #[trigger] s.history@[i] == Step::LevelComplete ==> i > 0
                && s.history@[i - 1] is Paint,
{
    lemma_session_finishes_once(s.first_tile_size@, s.width(), s.height(), s.levels_done@);
}

/// Halving `ts` once more is halving `ts / 2` once less.
proof fn lemma_halve_shift(ts: nat, k: nat)
    ensures
        halve(ts, k + 1) == halve(ts / 2, k),
    decreases k,
{
    if k > 0 {
        lemma_halve_shift(ts, (k - 1) as nat);
        assert(halve(ts, k + 1) == halve(ts, k) / 2);
        assert(halve(ts / 2, k) == halve(ts / 2, (k - 1) as nat) / 2);
    } else {
        assert(halve(ts, 0) == ts);
        assert(halve(ts, 1) == halve(ts, 0) / 2);
        assert(halve(ts / 2, 0) == ts / 2);
    }
}

/// Before the last level is done the tile edge is positive; after it, zero.
proof fn lemma_halve_positive(ts: nat, k: nat)
    requires
        k <= level_count(ts),
    ensures
        (halve(ts, k) > 0) <==> (k < level_count(ts)),
    decreases k,
{
    if k > 0 {
        lemma_halve_shift(ts, (k - 1) as nat);
        lemma_halve_positive(ts / 2, (k - 1) as nat);
    }
}

/// Completing more levels never shortens the steps.
proof fn lemma_completed_len_grows(ts: nat, width: nat, height: nat, j: nat, k: nat)
    requires
        j <= k,
    ensures
        completed_levels(ts, width, height, j).len() <= completed_levels(ts, width, height, k).len(),
    decreases k,
{
    if j < k {
        lemma_completed_len_grows(ts, width, height, j, (k - 1) as nat);
    }
}

/// Before the finish, fewer steps have been handed out than a session that
/// runs every level has.
proof fn lemma_history_bound(s: TileScheduler)
    requires
        s.wf(),
        !s.finished,
    ensures
        s.history@.len() < session_steps(
            s.first_tile_size@,
            s.width(),
            s.height(),
            level_count(s.first_tile_size@),
        ).len(),
{
    let ts = s.first_tile_size@;
    let k = s.levels_done@;
    let n = level_count(ts);
    lemma_halve_positive(ts, n);
    assert(level_paints(halve(ts, n), s.width(), s.height()).len() == 0);
    if s.in_level {
        crate::tiles::lemma_position(s.tiles);
        lemma_completed_len_grows(ts, s.width(), s.height(), k + 1, n);
    } else {
        lemma_completed_len_grows(ts, s.width(), s.height(), k, n);
    }
}

} // verus!
