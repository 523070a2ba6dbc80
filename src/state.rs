use std::sync::Arc;
use vstd::prelude::*;
use vstd::set_lib::{lemma_int_range, lemma_len_subset, set_int_range};
use crate::coord::{
    ID_SEED, pos_id, Coord, Pos, pos_add, pos_neg, below, is_direction, left_of, right_of, along,
    within,
};
use crate::level::{
    valid_description, DescriptionView, LevelDescription, TileType, tile_type, sausage_views,
    copy_sausages,
};
use crate::sausage::{
    Sausage, SausageView, axis, tail, occupies, rolls, shifted, seared, dropped,
    counters_at_most, burnt, cooked_through, sausage_id,
};

verus! {

/// A position of the game as the mathematics sees it.
pub struct StateView {
    pub player_pos: Pos,
    pub player_dir: Pos,
    pub sausages: Seq<SausageView>,
}

/// The largest magnitude of a coordinate in a state that the move function
/// accepts.
pub const MOVE_BOUND: i32 = 0x3fff_0000;

/// The largest magnitude of a sausage coordinate that a push accepts.
pub const PUSH_BOUND: i32 = MOVE_BOUND + 16;

/// The largest magnitude of a coordinate of the cell a push starts at.
pub const TARGET_BOUND: i32 = PUSH_BOUND + 16;

/// Every sausage's first cell lies within `[-b, b]` on each axis.
pub open spec fn positions_within(ss: Seq<SausageView>, b: int) -> bool {
    forall|i: int| 0 <= i < ss.len() ==> within(#[trigger] ss[i].pos, b)
}

/// Every cook counter of every sausage is at most `c`.
pub open spec fn counters_within(ss: Seq<SausageView>, c: int) -> bool {
    forall|i: int| 0 <= i < ss.len() ==> counters_at_most(#[trigger] ss[i], c)
}

/// The first sausage, at index `k` or later, that covers cell `c`.
pub open spec fn first_occupant_from(ss: Seq<SausageView>, c: Pos, k: nat) -> Option<int>
    decreases ss.len() - k,
{
    if k >= ss.len() {
        None
    } else if occupies(ss[k as int], c) {
        Some(k as int)
    } else {
        first_occupant_from(ss, c, k + 1)
    }
}

/// The first sausage of the list that covers cell `c`, if any.
pub open spec fn occupant(ss: Seq<SausageView>, c: Pos) -> Option<int> {
    first_occupant_from(ss, c, 0)
}

/// Some sausage covers cell `c`.
pub open spec fn occupied(ss: Seq<SausageView>, c: Pos) -> bool {
    exists|j: int| 0 <= j < ss.len() && occupies(#[trigger] ss[j], c)
}

/// Static terrain (ground or grill) fills cell `c`.
pub open spec fn solid(d: DescriptionView, c: Pos) -> bool {
    d.ground.contains(c) || d.grills.contains(c)
}

/// The furthest a sausage reaches along `dir`.
pub open spec fn extent(s: SausageView, dir: Pos) -> int {
    let a = along(s.pos, dir);
    let b = along(tail(s), dir);
    if a >= b {
        a
    } else {
        b
    }
}

/// How many sausages reach at least as far along `dir` as cell `p`: a push
/// chain starting at `p` can only meet these.
pub open spec fn ahead(ss: Seq<SausageView>, p: Pos, dir: Pos) -> nat {
    Set::new(|j: int| 0 <= j < ss.len() && extent(ss[j], dir) >= along(p, dir)).len()
}

/// Whether the cells that a push at `c` along `dir` must clear could all be
/// cleared: terrain blocks; an empty cell gives way; a sausage gives way
/// when the cells it moves into give way, both landing cells for a roll,
/// the cell beyond its leading end for a slide.
pub open spec fn push_feasible(
    d: DescriptionView,
    ss: Seq<SausageView>,
    c: Pos,
    dir: Pos,
) -> bool
    decreases ahead(ss, c, dir),
    when is_direction(dir)
{
    if solid(d, c) {
        false
    } else {
        match occupant(ss, c) {
            None => true,
            Some(i) => {
                proof {
                    lemma_occupant(ss, c);
                    lemma_ahead_shrinks(ss, c, dir, i);
                }
                let s = ss[i];
                if rolls(s, dir) {
                    push_feasible(d, ss, pos_add(s.pos, dir), dir) && push_feasible(
                        d,
                        ss,
                        pos_add(tail(s), dir),
                        dir,
                    )
                } else if dir == axis(s.orientation) {
                    push_feasible(d, ss, pos_add(pos_add(s.pos, dir), dir), dir)
                } else {
                    push_feasible(d, ss, pos_add(s.pos, dir), dir)
                }
            },
        }
    }
}

/// The indices of the sausages that a push at `c` along `dir` sets moving:
/// the one at `c` and, recursively, those in the cells it moves into.
pub open spec fn push_chain(ss: Seq<SausageView>, c: Pos, dir: Pos) -> Set<int>
    decreases ahead(ss, c, dir),
    when is_direction(dir)
{
    match occupant(ss, c) {
        None => Set::empty(),
        Some(i) => {
            proof {
                lemma_occupant(ss, c);
                lemma_ahead_shrinks(ss, c, dir, i);
            }
            let s = ss[i];
            if rolls(s, dir) {
                push_chain(ss, pos_add(s.pos, dir), dir).union(
                    push_chain(ss, pos_add(tail(s), dir), dir),
                ).insert(i)
            } else if dir == axis(s.orientation) {
                push_chain(ss, pos_add(pos_add(s.pos, dir), dir), dir).insert(i)
            } else {
                push_chain(ss, pos_add(s.pos, dir), dir).insert(i)
            }
        },
    }
}

/// A sausage after one step along `dir`: shifted (rolled if across its
/// axis), then seared at each end that now lies over a grill.
pub open spec fn moved(d: DescriptionView, s: SausageView, dir: Pos) -> SausageView {
    let t = shifted(s, dir);
    seared(t, d.grills.contains(below(t.pos)), d.grills.contains(below(tail(t))))
}

/// The sausages after a push at `c` along `dir`: each sausage of the chain
/// moves one step, the others stay.
pub open spec fn pushed(
    d: DescriptionView,
    ss: Seq<SausageView>,
    c: Pos,
    dir: Pos,
) -> Seq<SausageView> {
    Seq::new(
        ss.len(),
        |j: int|
            if push_chain(ss, c, dir).contains(j) {
                moved(d, ss[j], dir)
            } else {
                ss[j]
            },
    )
}

/// Cell `c` rests on something: terrain or a sausage fills the cell below.
pub open spec fn supported(d: DescriptionView, ss: Seq<SausageView>, c: Pos) -> bool {
    solid(d, below(c)) || occupied(ss, below(c))
}

/// Neither cell of the sausage rests on anything: it drops.
pub open spec fn falls(d: DescriptionView, ss: Seq<SausageView>, s: SausageView) -> bool {
    !supported(d, ss, s.pos) && !supported(d, ss, tail(s))
}

/// The sausages after the gravity pass has visited the first `k` of them
/// in order, each one dropping one unit if it then rests on nothing.
pub open spec fn settle_prefix(d: DescriptionView, ss: Seq<SausageView>, k: nat) -> Seq<SausageView>
    decreases k,
{
    if k == 0 {
        ss
    } else {
        let prev = settle_prefix(d, ss, (k - 1) as nat);
        let i = k - 1;
        if i < prev.len() && falls(d, prev, prev[i]) {
            prev.update(i, dropped(prev[i]))
        } else {
            prev
        }
    }
}

/// The sausages after one gravity pass.
pub open spec fn settled(d: DescriptionView, ss: Seq<SausageView>) -> Seq<SausageView> {
    settle_prefix(d, ss, ss.len())
}

/// Some sausage has a cell that rests on nothing.
pub open spec fn lost(d: DescriptionView, ss: Seq<SausageView>) -> bool {
    exists|i: int|
        0 <= i < ss.len() && (!supported(d, ss, (#[trigger] ss[i]).pos) || !supported(
            d,
            ss,
            tail(ss[i]),
        ))
}

/// Some sausage is burnt.
pub open spec fn any_burnt(ss: Seq<SausageView>) -> bool {
    exists|i: int| 0 <= i < ss.len() && burnt(#[trigger] ss[i])
}

/// Every sausage is cooked through and the player is back at the start
/// pose.
pub open spec fn solved(d: DescriptionView, s: StateView) -> bool {
    &&& forall|i: int| 0 <= i < s.sausages.len() ==> cooked_through(#[trigger] s.sausages[i])
    &&& s.player_pos == d.start_pos
    &&& s.player_dir == d.start_dir
}

/// The classification of a state, first match wins: lost, burnt, solution,
/// else unsolved.
pub open spec fn status(d: DescriptionView, s: StateView) -> LevelStatus {
    if lost(d, s.sausages) {
        LevelStatus::Lost
    } else if any_burnt(s.sausages) {
        LevelStatus::Burnt
    } else if solved(d, s) {
        LevelStatus::Solution
    } else {
        LevelStatus::Unsolved
    }
}

/// Terminal states are never expanded.
pub open spec fn terminal(d: DescriptionView, s: StateView) -> bool {
    status(d, s) != LevelStatus::Unsolved
}

/// The player may stand over this cell's tile.
pub open spec fn walkable(d: DescriptionView, c: Pos) -> bool {
    tile_type(d, below(c)) == TileType::Ground || tile_type(d, below(c)) == TileType::Grill
}

/// The state after the player's own move for `input`, before the grill
/// shove and gravity: forward and backward steps (each pushing what is in
/// the way, and taken only when the push can go through) and quarter turns
/// (sweeping the diagonal cell, then the side cell; the facing changes only
/// when both sweeps can go through).
pub open spec fn stepped(d: DescriptionView, s: StateView, input: Pos) -> StateView {
    let p = s.player_pos;
    let f = s.player_dir;
    let ss = s.sausages;
    if input == f {
        let fork = pos_add(pos_add(p, f), f);
        if walkable(d, pos_add(p, f)) && push_feasible(d, ss, fork, f) {
            StateView { player_pos: pos_add(p, f), sausages: pushed(d, ss, fork, f), ..s }
        } else {
            s
        }
    } else if input == pos_neg(f) {
        let back = pos_add(p, pos_neg(f));
        if walkable(d, back) && push_feasible(d, ss, back, pos_neg(f)) {
            StateView { player_pos: back, sausages: pushed(d, ss, back, pos_neg(f)), ..s }
        } else {
            s
        }
    } else if input == left_of(f) || input == right_of(f) {
        let diagonal = pos_add(pos_add(p, f), input);
        if push_feasible(d, ss, diagonal, input) {
            let swept = pushed(d, ss, diagonal, input);
            let side = pos_add(p, input);
            if push_feasible(d, swept, side, pos_neg(f)) {
                StateView {
                    player_dir: input,
                    sausages: pushed(d, swept, side, pos_neg(f)),
                    ..s
                }
            } else {
                StateView { sausages: swept, ..s }
            }
        } else {
            s
        }
    } else {
        s
    }
}

/// The state that the move `input` leads to: the player's step, then a
/// shove back off a grill, then one gravity pass.
pub open spec fn next_state(d: DescriptionView, s: StateView, input: Pos) -> StateView {
    let m = stepped(d, s, input);
    StateView {
        player_pos: if d.grills.contains(below(m.player_pos)) {
            pos_add(m.player_pos, pos_neg(input))
        } else {
            m.player_pos
        },
        player_dir: m.player_dir,
        sausages: settled(d, m.sausages),
    }
}

/// A state that the move function accepts: the player faces along a
/// horizontal unit vector, every coordinate lies within `MOVE_BOUND`, and
/// every cook counter leaves room for two more units.
pub open spec fn movable(s: StateView) -> bool {
    &&& is_direction(s.player_dir)
    &&& within(s.player_pos, MOVE_BOUND as int)
    &&& positions_within(s.sausages, MOVE_BOUND as int)
    &&& counters_within(s.sausages, 253)
}

/// A push moves each sausage at most one step and cooks it at most once.
pub proof fn lemma_pushed_bounds(
    d: DescriptionView,
    ss: Seq<SausageView>,
    c: Pos,
    dir: Pos,
    b: int,
    k: int,
)
    requires
        is_direction(dir),
        positions_within(ss, b),
        counters_within(ss, k),
    ensures
        pushed(d, ss, c, dir).len() == ss.len(),
        positions_within(pushed(d, ss, c, dir), b + 1),
        counters_within(pushed(d, ss, c, dir), k + 1),
{
    let r = pushed(d, ss, c, dir);
    assert forall|j: int| 0 <= j < r.len() implies within(#[trigger] r[j].pos, b + 1)
        && counters_at_most(r[j], k + 1) by {
        assert(within(ss[j].pos, b));
        assert(counters_at_most(ss[j], k));
    }
}

/// The gravity pass keeps the list's length, touches no sausage beyond the
/// first `k`, and drops each of those at most once.
pub proof fn lemma_settle_prefix(d: DescriptionView, ss: Seq<SausageView>, k: nat)
    ensures
        settle_prefix(d, ss, k).len() == ss.len(),
        forall|j: int|
            0 <= j < ss.len() ==> #[trigger] settle_prefix(d, ss, k)[j] == ss[j]
                || settle_prefix(d, ss, k)[j] == dropped(ss[j]),
        forall|j: int| k <= j < ss.len() ==> #[trigger] settle_prefix(d, ss, k)[j] == ss[j],
    decreases k,
{
    if k > 0 {
        lemma_settle_prefix(d, ss, (k - 1) as nat);
    }
}

/// Folds a list of sausages, in order, into the running identifier `h`.
pub open spec fn sausages_id(h: u64, ss: Seq<SausageView>) -> u64
    decreases ss.len(),
{
    if ss.len() == 0 {
        h
    } else {
        sausage_id(sausages_id(h, ss.drop_last()), ss.last())
    }
}

/// The identifier of a state: a hash of the player's position, facing and
/// sausage list, and of nothing else.
pub open spec fn state_id(s: StateView) -> u64 {
    sausages_id(pos_id(pos_id(ID_SEED, s.player_pos), s.player_dir), s.sausages)
}

/// Moving is a function of the level, the state and the move alone: equal
/// states lead by one move to equal states, with equal identifiers.
pub proof fn lemma_move_deterministic(d: DescriptionView, s: StateView, t: StateView, m: Pos)
    requires
        s == t,
    ensures
        next_state(d, s, m) == next_state(d, t, m),
        state_id(next_state(d, s, m)) == state_id(next_state(d, t, m)),
{
}

/// A state with a sausage that rests on nothing is lost, even when some
/// counter is also burnt: the support check comes first.
pub proof fn lemma_lost_before_burnt(d: DescriptionView, s: StateView)
    requires
        lost(d, s.sausages),
        any_burnt(s.sausages),
    ensures
        status(d, s) == LevelStatus::Lost,
{
}

/// What `first_occupant_from` finds.
pub proof fn lemma_occupant_from(ss: Seq<SausageView>, c: Pos, k: nat)
    ensures
        match first_occupant_from(ss, c, k) {
            Some(i) => k <= i < ss.len() && occupies(ss[i], c) && forall|j: int|
                k <= j < i ==> !occupies(#[trigger] ss[j], c),
            None => forall|j: int| k <= j < ss.len() ==> !occupies(#[trigger] ss[j], c),
        },
    decreases ss.len() - k,
{
    if k < ss.len() && !occupies(ss[k as int], c) {
        lemma_occupant_from(ss, c, k + 1);
    }
}

/// What `occupant` finds: the first covering sausage, or none when no
/// sausage covers the cell.
pub proof fn lemma_occupant(ss: Seq<SausageView>, c: Pos)
    ensures
        match occupant(ss, c) {
            Some(i) => 0 <= i < ss.len() && occupies(ss[i], c) && forall|j: int|
                0 <= j < i ==> !occupies(#[trigger] ss[j], c),
            None => !occupied(ss, c),
        },
{
    lemma_occupant_from(ss, c, 0);
}

/// Past the far end of a sausage that covers `p`, fewer sausages lie ahead.
pub proof fn lemma_ahead_shrinks(ss: Seq<SausageView>, p: Pos, dir: Pos, i: int)
    requires
        is_direction(dir),
        0 <= i < ss.len(),
        occupies(ss[i], p),
    ensures
        forall|t: Pos|
            along(t, dir) > extent(ss[i], dir) ==> #[trigger] ahead(ss, t, dir) < ahead(ss, p, dir),
{
    let sp = Set::new(|j: int| 0 <= j < ss.len() && extent(ss[j], dir) >= along(p, dir));
    lemma_int_range(0, ss.len() as int);
    lemma_len_subset(sp, set_int_range(0, ss.len() as int));
    assert(sp.contains(i));
    assert forall|t: Pos| along(t, dir) > extent(ss[i], dir) implies #[trigger] ahead(ss, t, dir)
        < ahead(ss, p, dir) by {
        let st = Set::new(|j: int| 0 <= j < ss.len() && extent(ss[j], dir) >= along(t, dir));
        assert(st.subset_of(sp.remove(i)));
        lemma_len_subset(st, sp.remove(i));
    }
}

/// How a state stands.
#[derive(Clone, Copy, Debug, PartialEq, Eq, Structural)]
pub enum LevelStatus {
    Unsolved,
    Lost,
    Solution,
    Burnt,
}

/// A snapshot of the game: the player's pose and every sausage, with the
/// level it belongs to. Two states are equal when the pose and the sausage
/// list agree; the level takes no part.
#[derive(Debug)]
pub struct LevelState {
    player_pos: Coord,
    player_dir: Coord,
    sausages: Vec<Sausage>,
    description: Arc<LevelDescription>,
}

impl View for LevelState {
    type V = StateView;

    closed spec fn view(&self) -> StateView {
        StateView {
            player_pos: self.player_pos@,
            player_dir: self.player_dir@,
            sausages: sausage_views(self.sausages@),
        }
    }
}

/// The index of the first sausage of `ss` that covers `c`.
fn find_sausage(ss: &Vec<Sausage>, c: Coord) -> (r: Option<usize>)
    ensures
        match r {
            Some(i) => occupant(sausage_views(ss@), c@) == Some(i as int),
            None => occupant(sausage_views(ss@), c@) == None::<int>,
        },
{
    let ghost v = sausage_views(ss@);
    let mut i: usize = 0;
    while i < ss.len()
        invariant
            i <= ss.len(),
            v == sausage_views(ss@),
            occupant(v, c@) == first_occupant_from(v, c@, i as nat),
        decreases ss.len() - i,
    {
        assert(v[i as int] == ss@[i as int]@);
        if ss[i].check_collision(c.x, c.y, c.z) {
            return Some(i);
        }
        i += 1;
    }
    None
}

impl LevelState {
    /// The level this state belongs to.
    pub closed spec fn level(&self) -> DescriptionView {
        self.description@
    }

    /// Whether a push at `pos` along `dir` could go through: terrain at
    /// `pos` blocks it, an empty cell lets it through, and a sausage there
    /// lets it through when the cells it would move into do.
    pub fn can_push(&self, pos: Coord, dir: Coord) -> (r: bool)
        requires
            is_direction(dir@),
            within(pos@, TARGET_BOUND as int),
            positions_within(self@.sausages, PUSH_BOUND as int),
        ensures
            r == push_feasible(self.level(), self@.sausages, pos@, dir@),
        decreases ahead(self@.sausages, pos@, dir@),
    {
        if self.description.is_ground(pos) || self.description.is_grill(pos) {
            return false;
        }
        match find_sausage(&self.sausages, pos) {
            None => true,
            Some(i) => {
                proof {
                    lemma_occupant(self@.sausages, pos@);
                    lemma_ahead_shrinks(self@.sausages, pos@, dir@, i as int);
                    assert(self@.sausages[i as int] == self.sausages@[i as int]@);
                }
                let s = self.sausages[i];
                if s.rolls_along(dir) {
                    self.can_push(s.cell().plus(dir), dir) && self.can_push(s.pos2().plus(dir), dir)
                } else if dir == s.axis_vector() {
                    self.can_push(s.cell().plus(dir).plus(dir), dir)
                } else {
                    self.can_push(s.cell().plus(dir), dir)
                }
            },
        }
    }

    /// Marks every sausage of the chain that a push at `pos` along `dir`
    /// sets moving.
    fn mark_chain(&self, pos: Coord, dir: Coord, marks: &mut Vec<bool>)
        requires
            is_direction(dir@),
            within(pos@, TARGET_BOUND as int),
            positions_within(self@.sausages, PUSH_BOUND as int),
            old(marks)@.len() == self@.sausages.len(),
        ensures
            final(marks)@.len() == old(marks)@.len(),
            forall|j: int|
                0 <= j < old(marks)@.len() ==> final(marks)@[j] == (old(marks)@[j] || push_chain(
                    self@.sausages,
                    pos@,
                    dir@,
                ).contains(j)),
        decreases ahead(self@.sausages, pos@, dir@),
    {
        match find_sausage(&self.sausages, pos) {
            None => {},
            Some(i) => {
                proof {
                    lemma_occupant(self@.sausages, pos@);
                    lemma_ahead_shrinks(self@.sausages, pos@, dir@, i as int);
                    assert(self@.sausages[i as int] == self.sausages@[i as int]@);
                }
                marks.set(i, true);
                let s = self.sausages[i];
                if s.rolls_along(dir) {
                    self.mark_chain(s.cell().plus(dir), dir, marks);
                    self.mark_chain(s.pos2().plus(dir), dir, marks);
                } else if dir == s.axis_vector() {
                    self.mark_chain(s.cell().plus(dir).plus(dir), dir, marks);
                } else {
                    self.mark_chain(s.cell().plus(dir), dir, marks);
                }
            },
        }
    }

    /// Pushes at `pos` along `dir`: every sausage of the chain moves one
    /// step, rolling when the push is across its axis, and cooks at each end
    /// that comes to rest over a grill.
    pub fn push(&mut self, pos: Coord, dir: Coord)
        requires
            is_direction(dir@),
            within(pos@, TARGET_BOUND as int),
            positions_within(old(self)@.sausages, PUSH_BOUND as int),
            counters_within(old(self)@.sausages, 254),
        ensures
            final(self)@ == (StateView {
                sausages: pushed(old(self).level(), old(self)@.sausages, pos@, dir@),
                ..old(self)@
            }),
            final(self).level() == old(self).level(),
    {
        let n = self.sausages.len();
        let mut marks: Vec<bool> = vec![false; n];
        self.mark_chain(pos, dir, &mut marks);
        let ghost d = self.level();
        let ghost ss = self@.sausages;
        let ghost goal = pushed(d, ss, pos@, dir@);
        let mut out: Vec<Sausage> = Vec::new();
        let mut j: usize = 0;
        while j < n
            invariant
                j <= n,
                n == self.sausages@.len(),
                marks@.len() == n,
                ss == self@.sausages,
                d == self.level(),
                goal == pushed(d, ss, pos@, dir@),
                is_direction(dir@),
                positions_within(ss, PUSH_BOUND as int),
                counters_within(ss, 254),
                forall|k: int| 0 <= k < n ==> marks@[k] == push_chain(ss, pos@, dir@).contains(k),
                out@.len() == j,
                forall|k: int| 0 <= k < j ==> (#[trigger] out@[k])@ == goal[k],
            decreases n - j,
        {
            let s = self.sausages[j];
            assert(s@ == ss[j as int]);
            if marks[j] {
                let t = s.shift(dir);
                let first = self.description.is_grill(t.cell().below());
                let second = self.description.is_grill(t.pos2().below());
                out.push(t.sear(first, second));
            } else {
                out.push(s);
            }
            j += 1;
        }
        assert(sausage_views(out@) =~= goal);
        self.sausages = out;
    }
}

impl LevelState {
    /// The start state of a level: the player at the start pose, the
    /// sausages as they first lie.
    pub fn from(value: &LevelDescription) -> (r: LevelState)
        ensures
            r@ == (StateView {
                player_pos: value@.start_pos,
                player_dir: value@.start_dir,
                sausages: value@.sausages,
            }),
            r.level() == value@,
            valid_description(r.level()),
    {
        proof {
            use_type_invariant(value);
        }
        LevelState {
            player_pos: value.start_pos(),
            player_dir: value.start_dir(),
            sausages: value.sausages(),
            description: Arc::new(value.clone()),
        }
    }

    /// Whether cell `c` rests on terrain or on a sausage.
    fn supported(&self, c: Coord) -> (r: bool)
        requires
            within(c@, PUSH_BOUND as int + 2),
        ensures
            r == supported(self.level(), self@.sausages, c@),
    {
        let b = c.below();
        if self.description.is_ground(b) || self.description.is_grill(b) {
            return true;
        }
        proof {
            lemma_occupant(self@.sausages, b@);
        }
        match find_sausage(&self.sausages, b) {
            Some(_) => true,
            None => false,
        }
    }

    /// One gravity pass: in list order, each sausage that rests on nothing
    /// drops one unit.
    fn settle(&mut self)
        requires
            positions_within(old(self)@.sausages, PUSH_BOUND as int),
        ensures
            final(self)@ == (StateView {
                sausages: settled(old(self).level(), old(self)@.sausages),
                ..old(self)@
            }),
            final(self).level() == old(self).level(),
    {
        let ghost d = self.level();
        let ghost ss = self@.sausages;
        let ghost pose = (self@.player_pos, self@.player_dir);
        let n = self.sausages.len();
        let mut i: usize = 0;
        while i < n
            invariant
                i <= n,
                n == ss.len(),
                d == self.level(),
                pose == (self@.player_pos, self@.player_dir),
                positions_within(ss, PUSH_BOUND as int),
                self@.sausages == settle_prefix(d, ss, i as nat),
            decreases n - i,
        {
            proof {
                lemma_settle_prefix(d, ss, i as nat);
                assert(self@.sausages[i as int] == self.sausages@[i as int]@);
                assert(self@.sausages[i as int] == ss[i as int]);
                assert(within(ss[i as int].pos, PUSH_BOUND as int));
            }
            let s = self.sausages[i];
            let first = s.cell();
            let second = s.pos2();
            if !self.supported(first) && !self.supported(second) {
                self.sausages.set(i, s.drop_one());
                proof {
                    assert(self@.sausages =~= settle_prefix(d, ss, i as nat).update(
                        i as int,
                        dropped(settle_prefix(d, ss, i as nat)[i as int]),
                    ));
                }
            }
            i += 1;
        }
        proof {
            assert(self@.sausages == settled(d, ss));
        }
    }

    /// Classifies the state, first match wins: a sausage with a cell that
    /// rests on nothing makes it lost; else a counter above one makes it
    /// burnt; else every counter at one with the player back at the start
    /// pose makes it a solution; else it is unsolved.
    pub fn get_status(&self) -> (r: LevelStatus)
        requires
            positions_within(self@.sausages, PUSH_BOUND as int),
        ensures
            r == status(self.level(), self@),
    {
        let ghost ss = self@.sausages;
        let n = self.sausages.len();
        let mut i: usize = 0;
        while i < n
            invariant
                i <= n,
                n == ss.len(),
                ss == self@.sausages,
                positions_within(ss, PUSH_BOUND as int),
                forall|j: int|
                    0 <= j < i ==> supported(self.level(), ss, (#[trigger] ss[j]).pos) && supported(
                        self.level(),
                        ss,
                        tail(ss[j]),
                    ),
            decreases n - i,
        {
            assert(ss[i as int] == self.sausages@[i as int]@);
            assert(within(ss[i as int].pos, PUSH_BOUND as int));
            let s = self.sausages[i];
            if !self.supported(s.cell()) || !self.supported(s.pos2()) {
                return LevelStatus::Lost;
            }
            i += 1;
        }
        assert(!lost(self.level(), ss));
        let mut i: usize = 0;
        while i < n
            invariant
                i <= n,
                n == ss.len(),
                ss == self@.sausages,
                !lost(self.level(), ss),
                forall|j: int| 0 <= j < i ==> !burnt(#[trigger] ss[j]),
            decreases n - i,
        {
            assert(ss[i as int] == self.sausages@[i as int]@);
            if self.sausages[i].is_burnt() {
                return LevelStatus::Burnt;
            }
            i += 1;
        }
        assert(!any_burnt(ss));
        let mut i: usize = 0;
        while i < n
            invariant
                i <= n,
                n == ss.len(),
                ss == self@.sausages,
                !lost(self.level(), ss),
                !any_burnt(ss),
                forall|j: int| 0 <= j < i ==> cooked_through(#[trigger] ss[j]),
            decreases n - i,
        {
            assert(ss[i as int] == self.sausages@[i as int]@);
            if !self.sausages[i].is_cooked_through() {
                return LevelStatus::Unsolved;
            }
            i += 1;
        }
        if self.player_pos == self.description.start_pos() && self.player_dir
            == self.description.start_dir() {
            LevelStatus::Solution
        } else {
            LevelStatus::Unsolved
        }
    }
}

impl LevelState {
    /// Whether the player may stand over cell `c`: ground or grill lies
    /// below it.
    fn walkable(&self, c: Coord) -> (r: bool)
        requires
            within(c@, TARGET_BOUND as int),
        ensures
            r == walkable(self.level(), c@),
    {
        let t = self.description.get_tile_type(c.below());
        t == TileType::Ground || t == TileType::Grill
    }

    /// The state that the move `input` (one of the four horizontal unit
    /// vectors) leads to. Along the facing the player steps forward,
    /// pushing what lies two cells ahead; against it the player steps back,
    /// pushing what lies behind; a quarter turn sweeps the diagonal cell and
    /// then the side cell. A player who ends over a grill is shoved back
    /// against `input`, and then every sausage that rests on nothing drops
    /// one unit. `self` is left as it was.
    pub fn get_next_state(&self, input: Coord) -> (r: LevelState)
        requires
            is_direction(input@),
            movable(self@),
        ensures
            r@ == next_state(self.level(), self@, input@),
            r.level() == self.level(),
    {
        let ghost d = self.level();
        let ghost ss = self@.sausages;
        let mut state = LevelState {
            player_pos: self.player_pos,
            player_dir: self.player_dir,
            sausages: copy_sausages(&self.sausages),
            description: Arc::clone(&self.description),
        };
        assert(state@ == self@);
        let p = self.player_pos;
        let f = self.player_dir;
        if input == f {
            let ahead = p.plus(f);
            let fork = ahead.plus(f);
            if self.walkable(ahead) && state.can_push(fork, f) {
                state.push(fork, f);
                state.player_pos = ahead;
                proof {
                    lemma_pushed_bounds(d, ss, fork@, f@, MOVE_BOUND as int, 253);
                }
            }
        } else if input == f.negated() {
            let back_dir = f.negated();
            let back = p.plus(back_dir);
            if self.walkable(back) && state.can_push(back, back_dir) {
                state.push(back, back_dir);
                state.player_pos = back;
                proof {
                    lemma_pushed_bounds(d, ss, back@, back_dir@, MOVE_BOUND as int, 253);
                }
            }
        } else if input == f.cross_z() || input == f.cross_z().negated() {
            let diagonal = p.plus(f).plus(input);
            if state.can_push(diagonal, input) {
                state.push(diagonal, input);
                let ghost swept = state@.sausages;
                proof {
                    lemma_pushed_bounds(d, ss, diagonal@, input@, MOVE_BOUND as int, 253);
                }
                let side = p.plus(input);
                let back_dir = f.negated();
                if state.can_push(side, back_dir) {
                    state.push(side, back_dir);
                    state.player_dir = input;
                    proof {
                        lemma_pushed_bounds(
                            d,
                            swept,
                            side@,
                            back_dir@,
                            MOVE_BOUND as int + 1,
                            254,
                        );
                    }
                }
            }
        }
        assert(state@ == stepped(d, self@, input@));
        if self.description.is_grill(state.player_pos.below()) {
            state.player_pos = state.player_pos.plus(input.negated());
        }
        state.settle();
        state
    }

    /// The counters of a state's sausages are bytes.
    pub proof fn lemma_sausage_counters(&self, j: int)
        requires
            0 <= j < self@.sausages.len(),
        ensures
            crate::sausage::counters_in_byte(self@.sausages[j]),
    {
        Sausage::lemma_counters_in_byte(self.sausages@[j]);
    }

    /// Where the player stands.
    pub fn player_pos(&self) -> (r: Coord)
        ensures
            r@ == self@.player_pos,
    {
        self.player_pos
    }

    /// The way the player faces.
    pub fn player_dir(&self) -> (r: Coord)
        ensures
            r@ == self@.player_dir,
    {
        self.player_dir
    }

    /// The sausages, in list order.
    pub fn sausages(&self) -> (r: Vec<Sausage>)
        ensures
            sausage_views(r@) == self@.sausages,
    {
        copy_sausages(&self.sausages)
    }
}

impl LevelState {
    /// A stable identifier: a hash of the player's position, facing and
    /// sausage list. Equal states have equal identifiers.
    pub fn get_id(&self) -> (r: u64)
        ensures
            r == state_id(self@),
    {
        let ghost ss = self@.sausages;
        let h0 = self.player_dir.fold_into(self.player_pos.fold_into(ID_SEED));
        let mut h = h0;
        let mut i: usize = 0;
        while i < self.sausages.len()
            invariant
                i <= ss.len(),
                ss == self@.sausages,
                h == sausages_id(h0, ss.subrange(0, i as int)),
            decreases ss.len() - i,
        {
            assert(ss.subrange(0, i as int + 1).drop_last() =~= ss.subrange(0, i as int));
            assert(ss[i as int] == self.sausages@[i as int]@);
            h = self.sausages[i].fold_into(h);
            i += 1;
        }
        assert(ss.subrange(0, ss.len() as int) =~= ss);
        h
    }
}

impl PartialEq for LevelState {
    fn eq(&self, other: &LevelState) -> (r: bool) {
        if self.player_pos != other.player_pos || self.player_dir != other.player_dir
            || self.sausages.len() != other.sausages.len() {
            assert(self@.sausages.len() == self.sausages@.len());
            assert(other@.sausages.len() == other.sausages@.len());
            return false;
        }
        let n = self.sausages.len();
        let mut i: usize = 0;
        while i < n
            invariant
                i <= n,
                n == self.sausages@.len(),
                n == other.sausages@.len(),
                forall|j: int| 0 <= j < i ==> self.sausages@[j]@ == other.sausages@[j]@,
            decreases n - i,
        {
            proof {
                Sausage::lemma_view_injective(self.sausages@[i as int], other.sausages@[i as int]);
            }
            if self.sausages[i] != other.sausages[i] {
                assert(self@.sausages[i as int] == self.sausages@[i as int]@);
                assert(other@.sausages[i as int] == other.sausages@[i as int]@);
                return false;
            }
            i += 1;
        }
        assert(self@.sausages =~= other@.sausages);
        true
    }
}

impl vstd::std_specs::cmp::PartialEqSpecImpl for LevelState {
    open spec fn obeys_eq_spec() -> bool {
        true
    }

    open spec fn eq_spec(&self, other: &LevelState) -> bool {
        self@ == other@
    }
}

impl Eq for LevelState {

}

} // verus!
