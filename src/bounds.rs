//! Why the search ends: every state it expands stays inside a box fixed by
//! the level, and the states of that box can be numbered injectively by a
//! bounded range of integers.
use vstd::prelude::*;
use vstd::set_lib::{lemma_int_range, lemma_len_subset, set_int_range};
use crate::coord::{Pos, pos_add, pos_neg, below, is_direction, left_of, right_of, within};
use crate::level::{DescriptionView, valid_description, COORD_LIMIT};
use crate::sausage::{
    SausageView, SausageOrientation, occupies, tail, counters_at_most, counters_in_byte,
};
use crate::state::{
    StateView, LevelStatus, solid, supported, lost, status, pushed, stepped, next_state,
    settle_prefix, lemma_settle_prefix, positions_within,
};

verus! {

/// The player lies within one cell, and each sausage within two cells, of
/// the level's coordinate limit; the facing is a horizontal unit vector;
/// the sausage count is the level's; every counter is a byte.
pub open spec fn in_box(d: DescriptionView, s: StateView) -> bool {
    &&& within(s.player_pos, COORD_LIMIT as int + 1)
    &&& is_direction(s.player_dir)
    &&& s.sausages.len() == d.sausages.len()
    &&& positions_within(s.sausages, COORD_LIMIT as int + 2)
    &&& forall|i: int| 0 <= i < s.sausages.len() ==> counters_in_byte(#[trigger] s.sausages[i])
}

/// `p` lies within `xy` of the origin horizontally and between `lo` and
/// `hi` vertically.
pub open spec fn in_region(p: Pos, xy: int, lo: int, hi: int) -> bool {
    -xy <= p.x <= xy && -xy <= p.y <= xy && lo <= p.z <= hi
}

/// Every sausage's first cell lies in the region, and its counters lie in
/// `[0, k]`.
pub open spec fn sausages_in_region(ss: Seq<SausageView>, xy: int, lo: int, hi: int, k: int) -> bool {
    forall|i: int|
        0 <= i < ss.len() ==> in_region((#[trigger] ss[i]).pos, xy, lo, hi) && counters_at_most(
            ss[i],
            k,
        ) && counters_in_byte(ss[i])
}

/// Below any sausage cell of a state that is not lost, terrain fills some
/// lower cell of the same column.
pub proof fn lemma_column(d: DescriptionView, ss: Seq<SausageView>, c: Pos, b: int)
    requires
        !lost(d, ss),
        positions_within(ss, b),
        exists|j: int| 0 <= j < ss.len() && occupies(#[trigger] ss[j], c),
    ensures
        exists|t: Pos| solid(d, t) && t.x == c.x && t.y == c.y && t.z < c.z,
    decreases c.z + b + 1,
{
    let j = choose|j: int| 0 <= j < ss.len() && occupies(#[trigger] ss[j], c);
    assert(within(ss[j].pos, b));
    assert(supported(d, ss, ss[j].pos) && supported(d, ss, tail(ss[j])));
    if solid(d, below(c)) {
        assert(solid(d, below(c)) && below(c).x == c.x && below(c).y == c.y && below(c).z < c.z);
    } else {
        let k = choose|k: int| 0 <= k < ss.len() && occupies(#[trigger] ss[k], below(c));
        assert(within(ss[k].pos, b));
        lemma_column(d, ss, below(c), b);
        let t = choose|t: Pos| solid(d, t) && t.x == c.x && t.y == c.y && t.z < c.z - 1;
        assert(solid(d, t) && t.x == c.x && t.y == c.y && t.z < c.z);
    }
}

/// In a state that is not lost, every sausage stands over the level's
/// tiles.
pub proof fn lemma_grounded(d: DescriptionView, ss: Seq<SausageView>, b: int)
    requires
        valid_description(d),
        !lost(d, ss),
        positions_within(ss, b),
    ensures
        forall|i: int|
            0 <= i < ss.len() ==> in_region(
                (#[trigger] ss[i]).pos,
                COORD_LIMIT as int,
                -(COORD_LIMIT as int) + 1,
                b,
            ),
{
    assert forall|i: int| 0 <= i < ss.len() implies in_region(
        (#[trigger] ss[i]).pos,
        COORD_LIMIT as int,
        -(COORD_LIMIT as int) + 1,
        b,
    ) by {
        assert(occupies(ss[i], ss[i].pos));
        assert(within(ss[i].pos, b));
        lemma_column(d, ss, ss[i].pos, b);
        let t = choose|t: Pos| solid(d, t) && t.x == ss[i].pos.x && t.y == ss[i].pos.y && t.z < ss[i].pos.z;
        if d.ground.contains(t) {
            let k = choose|k: int| 0 <= k < d.ground.len() && d.ground[k] == t;
            assert(within(d.ground[k], COORD_LIMIT as int));
        } else {
            let k = choose|k: int| 0 <= k < d.grills.len() && d.grills[k] == t;
            assert(within(d.grills[k], COORD_LIMIT as int));
        }
    }
}

/// A push moves each sausage at most one step horizontally and adds at
/// most one to each counter.
pub proof fn lemma_pushed_region(
    d: DescriptionView,
    ss: Seq<SausageView>,
    c: Pos,
    dir: Pos,
    xy: int,
    lo: int,
    hi: int,
    k: int,
)
    requires
        is_direction(dir),
        sausages_in_region(ss, xy, lo, hi, k),
        k < 255,
    ensures
        pushed(d, ss, c, dir).len() == ss.len(),
        sausages_in_region(pushed(d, ss, c, dir), xy + 1, lo, hi, k + 1),
{
    let r = pushed(d, ss, c, dir);
    assert forall|i: int| 0 <= i < r.len() implies in_region((#[trigger] r[i]).pos, xy + 1, lo, hi)
        && counters_at_most(r[i], k + 1) && counters_in_byte(r[i]) by {
        assert(in_region(ss[i].pos, xy, lo, hi) && counters_at_most(ss[i], k) && counters_in_byte(
            ss[i],
        ));
    }
}

/// The gravity pass drops a sausage at most one unit.
pub proof fn lemma_settled_region(
    d: DescriptionView,
    ss: Seq<SausageView>,
    xy: int,
    lo: int,
    hi: int,
    k: int,
)
    requires
        sausages_in_region(ss, xy, lo, hi, k),
    ensures
        settle_prefix(d, ss, ss.len()).len() == ss.len(),
        sausages_in_region(settle_prefix(d, ss, ss.len()), xy, lo - 1, hi, k),
{
    lemma_settle_prefix(d, ss, ss.len());
    let r = settle_prefix(d, ss, ss.len());
    assert forall|i: int| 0 <= i < r.len() implies in_region((#[trigger] r[i]).pos, xy, lo - 1, hi)
        && counters_at_most(r[i], k) && counters_in_byte(r[i]) by {
        assert(in_region(ss[i].pos, xy, lo, hi) && counters_at_most(ss[i], k) && counters_in_byte(
            ss[i],
        ));
        assert(r[i] == ss[i] || r[i] == crate::sausage::dropped(ss[i]));
    }
}

/// A cell over a tile lies within the coordinate limit horizontally.
pub proof fn lemma_over_tile(d: DescriptionView, c: Pos)
    requires
        valid_description(d),
        d.ground.contains(below(c)) || d.grills.contains(below(c)),
    ensures
        -(COORD_LIMIT as int) <= c.x <= COORD_LIMIT as int,
        -(COORD_LIMIT as int) <= c.y <= COORD_LIMIT as int,
{
    if d.ground.contains(below(c)) {
        let k = choose|k: int| 0 <= k < d.ground.len() && d.ground[k] == below(c);
        assert(within(d.ground[k], COORD_LIMIT as int));
    } else {
        let k = choose|k: int| 0 <= k < d.grills.len() && d.grills[k] == below(c);
        assert(within(d.grills[k], COORD_LIMIT as int));
    }
}

/// Expanding an unsolved state inside the box leads only to states inside
/// the box.
pub proof fn lemma_successor_in_box(d: DescriptionView, s: StateView, m: Pos)
    requires
        valid_description(d),
        in_box(d, s),
        status(d, s) == LevelStatus::Unsolved,
        m == s.player_dir || m == pos_neg(s.player_dir) || m == left_of(s.player_dir) || m
            == right_of(s.player_dir),
    ensures
        in_box(d, next_state(d, s, m)),
{
    let l = COORD_LIMIT as int;
    let ss = s.sausages;
    let f = s.player_dir;
    let p = s.player_pos;
    lemma_grounded(d, ss, l + 2);
    assert(sausages_in_region(ss, l, -l + 1, l + 2, 1)) by {
        assert forall|i: int| 0 <= i < ss.len() implies in_region(
            (#[trigger] ss[i]).pos,
            l,
            -l + 1,
            l + 2,
        ) && counters_at_most(ss[i], 1) && counters_in_byte(ss[i]) by {
            assert(!crate::sausage::burnt(ss[i]));
        }
    }
    let st = stepped(d, s, m);
    if m == f {
        lemma_pushed_region(d, ss, pos_add(pos_add(p, f), f), f, l, -l + 1, l + 2, 1);
        if st.player_pos != p {
            lemma_over_tile(d, pos_add(p, f));
        }
    } else if m == pos_neg(f) {
        lemma_pushed_region(d, ss, pos_add(p, pos_neg(f)), pos_neg(f), l, -l + 1, l + 2, 1);
        if st.player_pos != p {
            lemma_over_tile(d, pos_add(p, pos_neg(f)));
        }
    } else {
        let diagonal = pos_add(pos_add(p, f), m);
        lemma_pushed_region(d, ss, diagonal, m, l, -l + 1, l + 2, 1);
        let swept = pushed(d, ss, diagonal, m);
        lemma_pushed_region(d, swept, pos_add(p, m), pos_neg(f), l + 1, -l + 1, l + 2, 2);
    }
    assert(sausages_in_region(st.sausages, l + 2, -l + 1, l + 2, 3));
    assert(st.sausages.len() == ss.len());
    assert(is_direction(st.player_dir));
    assert(within(st.player_pos, l + 1));
    assert(st.player_pos.z == p.z);
    lemma_settled_region(d, st.sausages, l + 2, -l + 1, l + 2, 3);
    let n = next_state(d, s, m);
    if d.grills.contains(below(st.player_pos)) {
        lemma_over_tile(d, st.player_pos);
    }
    assert(within(n.player_pos, l + 1));
}

/// The number of values a box coordinate can take.
pub open spec fn width() -> int {
    2 * (COORD_LIMIT as int + 2) + 1
}

/// A box coordinate shifted into `[0, width())`.
pub open spec fn comp_code(c: int) -> int {
    c + COORD_LIMIT as int + 2
}

/// A number for each point of the box, below `width()^3`.
pub open spec fn pos_code(p: Pos) -> int {
    (comp_code(p.x) * width() + comp_code(p.y)) * width() + comp_code(p.z)
}

/// A number for each horizontal unit vector, below four.
pub open spec fn dir_code(f: Pos) -> int {
    if f.x == 1 {
        0
    } else if f.x == -1 {
        1
    } else if f.y == 1 {
        2
    } else {
        3
    }
}

/// The number of distinct sausage numbers.
pub open spec fn sausage_span() -> int {
    width() * width() * width() * 2 * 256 * 256 * 256 * 256
}

/// A number for each sausage in the box, below `sausage_span()`.
pub open spec fn sausage_code(s: SausageView) -> int {
    let o = match s.orientation {
        SausageOrientation::Horizontal => 0int,
        SausageOrientation::Vertical => 1int,
    };
    ((((pos_code(s.pos) * 2 + o) * 256 + s.down.0) * 256 + s.down.1) * 256 + s.up.0) * 256 + s.up.1
}

/// `b` to the power `n`.
pub open spec fn power(b: int, n: nat) -> int
    decreases n,
{
    if n == 0 {
        1
    } else {
        power(b, (n - 1) as nat) * b
    }
}

/// A number for each list of sausages in the box, below
/// `sausage_span()^len`.
pub open spec fn list_code(ss: Seq<SausageView>) -> int
    decreases ss.len(),
{
    if ss.len() == 0 {
        0
    } else {
        list_code(ss.drop_last()) * sausage_span() + sausage_code(ss.last())
    }
}

/// A number for each state in the box.
pub open spec fn state_code(s: StateView) -> int {
    (pos_code(s.player_pos) * 4 + dir_code(s.player_dir)) * power(
        sausage_span(),
        s.sausages.len(),
    ) + list_code(s.sausages)
}

/// How many states the box of level `d` holds, at most.
pub open spec fn universe_size(d: DescriptionView) -> int {
    width() * width() * width() * 4 * power(sausage_span(), d.sausages.len())
}

/// Digits in a mixed radix are unique.
pub proof fn lemma_digits(q1: int, r1: int, q2: int, r2: int, b: int)
    requires
        0 <= r1 < b,
        0 <= r2 < b,
        q1 * b + r1 == q2 * b + r2,
    ensures
        q1 == q2,
        r1 == r2,
{
    if q1 > q2 {
        assert((q1 - q2) * b >= b) by (nonlinear_arith)
            requires
                q1 - q2 >= 1,
                b > 0,
        ;
        assert(q1 * b - q2 * b == (q1 - q2) * b) by (nonlinear_arith);
    } else if q1 < q2 {
        assert((q2 - q1) * b >= b) by (nonlinear_arith)
            requires
                q2 - q1 >= 1,
                b > 0,
        ;
        assert(q2 * b - q1 * b == (q2 - q1) * b) by (nonlinear_arith);
    }
}

/// One more digit keeps a number below the next power.
pub proof fn lemma_digit_range(q: int, qn: int, r: int, b: int)
    requires
        0 <= q < qn,
        0 <= r < b,
    ensures
        0 <= q * b + r < qn * b,
{
    assert(0 <= q * b) by (nonlinear_arith)
        requires
            q >= 0,
            b >= 0,
    ;
    assert(q * b <= (qn - 1) * b) by (nonlinear_arith)
        requires
            q <= qn - 1,
            b >= 0,
    ;
    assert((qn - 1) * b == qn * b - b) by (nonlinear_arith);
}

/// Point numbers are in range and distinct for distinct points of the box.
pub proof fn lemma_pos_code(p: Pos, q: Pos)
    requires
        within(p, COORD_LIMIT as int + 2),
        within(q, COORD_LIMIT as int + 2),
    ensures
        0 <= pos_code(p) < width() * width() * width(),
        pos_code(p) == pos_code(q) ==> p == q,
{
    let w = width();
    lemma_digit_range(comp_code(p.x), w, comp_code(p.y), w);
    lemma_digit_range(comp_code(p.x) * w + comp_code(p.y), w * w, comp_code(p.z), w);
    if pos_code(p) == pos_code(q) {
        lemma_digits(
            comp_code(p.x) * w + comp_code(p.y),
            comp_code(p.z),
            comp_code(q.x) * w + comp_code(q.y),
            comp_code(q.z),
            w,
        );
        lemma_digits(comp_code(p.x), comp_code(p.y), comp_code(q.x), comp_code(q.y), w);
    }
}

/// Sausage numbers are in range and distinct for distinct sausages of the
/// box.
pub proof fn lemma_sausage_code(s: SausageView, t: SausageView)
    requires
        within(s.pos, COORD_LIMIT as int + 2),
        within(t.pos, COORD_LIMIT as int + 2),
        counters_in_byte(s),
        counters_in_byte(t),
    ensures
        0 <= sausage_code(s) < sausage_span(),
        sausage_code(s) == sausage_code(t) ==> s == t,
{
    let w3 = width() * width() * width();
    lemma_pos_code(s.pos, t.pos);
    let os = match s.orientation {
        SausageOrientation::Horizontal => 0int,
        SausageOrientation::Vertical => 1int,
    };
    let ot = match t.orientation {
        SausageOrientation::Horizontal => 0int,
        SausageOrientation::Vertical => 1int,
    };
    let a1 = pos_code(s.pos) * 2 + os;
    let a2 = a1 * 256 + s.down.0;
    let a3 = a2 * 256 + s.down.1;
    let a4 = a3 * 256 + s.up.0;
    lemma_digit_range(pos_code(s.pos), w3, os, 2);
    lemma_digit_range(a1, w3 * 2, s.down.0, 256);
    lemma_digit_range(a2, w3 * 2 * 256, s.down.1, 256);
    lemma_digit_range(a3, w3 * 2 * 256 * 256, s.up.0, 256);
    lemma_digit_range(a4, w3 * 2 * 256 * 256 * 256, s.up.1, 256);
    if sausage_code(s) == sausage_code(t) {
        let b1 = pos_code(t.pos) * 2 + ot;
        let b2 = b1 * 256 + t.down.0;
        let b3 = b2 * 256 + t.down.1;
        let b4 = b3 * 256 + t.up.0;
        lemma_digits(a4, s.up.1, b4, t.up.1, 256);
        lemma_digits(a3, s.up.0, b3, t.up.0, 256);
        lemma_digits(a2, s.down.1, b2, t.down.1, 256);
        lemma_digits(a1, s.down.0, b1, t.down.0, 256);
        lemma_digits(pos_code(s.pos), os, pos_code(t.pos), ot, 2);
    }
}

/// Powers of a positive base are positive.
pub proof fn lemma_power_positive(b: int, n: nat)
    requires
        b > 0,
    ensures
        power(b, n) > 0,
    decreases n,
{
    if n > 0 {
        lemma_power_positive(b, (n - 1) as nat);
        assert(power(b, (n - 1) as nat) * b > 0) by (nonlinear_arith)
            requires
                power(b, (n - 1) as nat) > 0,
                b > 0,
        ;
    }
}

/// List numbers are in range and distinct for distinct lists of the box of
/// one length.
pub proof fn lemma_list_code(ss: Seq<SausageView>, tt: Seq<SausageView>)
    requires
        ss.len() == tt.len(),
        positions_within(ss, COORD_LIMIT as int + 2),
        positions_within(tt, COORD_LIMIT as int + 2),
        forall|i: int| 0 <= i < ss.len() ==> counters_in_byte(#[trigger] ss[i]),
        forall|i: int| 0 <= i < tt.len() ==> counters_in_byte(#[trigger] tt[i]),
    ensures
        0 <= list_code(ss) < power(sausage_span(), ss.len()),
        list_code(ss) == list_code(tt) ==> ss == tt,
    decreases ss.len(),
{
    if ss.len() > 0 {
        let n = (ss.len() - 1) as int;
        let sp = ss.drop_last();
        let tp = tt.drop_last();
        assert(within(ss[n].pos, COORD_LIMIT as int + 2) && counters_in_byte(ss[n]));
        assert(within(tt[n].pos, COORD_LIMIT as int + 2) && counters_in_byte(tt[n]));
        assert forall|i: int| 0 <= i < sp.len() implies within((#[trigger] sp[i]).pos, COORD_LIMIT as int + 2)
            && counters_in_byte(sp[i]) by {
            assert(sp[i] == ss[i]);
            assert(within(ss[i].pos, COORD_LIMIT as int + 2) && counters_in_byte(ss[i]));
        }
        assert forall|i: int| 0 <= i < tp.len() implies within((#[trigger] tp[i]).pos, COORD_LIMIT as int + 2)
            && counters_in_byte(tp[i]) by {
            assert(tp[i] == tt[i]);
            assert(within(tt[i].pos, COORD_LIMIT as int + 2) && counters_in_byte(tt[i]));
        }
        lemma_list_code(sp, tp);
        lemma_sausage_code(ss.last(), tt.last());
        lemma_digit_range(
            list_code(sp),
            power(sausage_span(), sp.len()),
            sausage_code(ss.last()),
            sausage_span(),
        );
        if list_code(ss) == list_code(tt) {
            lemma_sausage_code(tt.last(), ss.last());
            lemma_digits(
                list_code(sp),
                sausage_code(ss.last()),
                list_code(tp),
                sausage_code(tt.last()),
                sausage_span(),
            );
            assert(ss =~= sp.push(ss.last()));
            assert(tt =~= tp.push(tt.last()));
        }
    }
}

/// State numbers are in range and distinct for distinct states of the box.
pub proof fn lemma_state_code(d: DescriptionView, s: StateView, t: StateView)
    requires
        in_box(d, s),
        in_box(d, t),
    ensures
        0 <= state_code(s) < universe_size(d),
        state_code(s) == state_code(t) ==> s == t,
{
    let w3 = width() * width() * width();
    let n = d.sausages.len();
    let pw = power(sausage_span(), n);
    lemma_pos_code(s.player_pos, t.player_pos);
    lemma_pos_code(t.player_pos, s.player_pos);
    lemma_list_code(s.sausages, t.sausages);
    lemma_list_code(t.sausages, s.sausages);
    let hs = pos_code(s.player_pos) * 4 + dir_code(s.player_dir);
    let ht = pos_code(t.player_pos) * 4 + dir_code(t.player_dir);
    lemma_digit_range(pos_code(s.player_pos), w3, dir_code(s.player_dir), 4);
    lemma_digit_range(hs, w3 * 4, list_code(s.sausages), pw);
    if state_code(s) == state_code(t) {
        lemma_digits(hs, list_code(s.sausages), ht, list_code(t.sausages), pw);
        lemma_digits(
            pos_code(s.player_pos),
            dir_code(s.player_dir),
            pos_code(t.player_pos),
            dir_code(t.player_dir),
            4,
        );
    }
}

/// A list of distinct states of the box is no longer than the box holds.
pub proof fn lemma_count(d: DescriptionView, nodes: Seq<StateView>)
    requires
        nodes.no_duplicates(),
        forall|k: int| 0 <= k < nodes.len() ==> in_box(d, #[trigger] nodes[k]),
    ensures
        nodes.len() <= universe_size(d),
{
    let codes = nodes.map_values(|s: StateView| state_code(s));
    assert forall|i: int, j: int|
        0 <= i < codes.len() && 0 <= j < codes.len() && i != j implies codes[i] != codes[j] by {
        lemma_state_code(d, nodes[i], nodes[j]);
    }
    assert(codes.no_duplicates());
    codes.unique_seq_to_set();
    let range = set_int_range(0, universe_size(d));
    assert forall|c: int| codes.to_set().contains(c) implies range.contains(c) by {
        let i = choose|i: int| 0 <= i < codes.len() && codes[i] == c;
        lemma_state_code(d, nodes[i], nodes[i]);
    }
    assert(0 <= universe_size(d)) by {
        if nodes.len() > 0 {
            lemma_state_code(d, nodes[0], nodes[0]);
        } else {
            let w = width();
            assert(w > 0);
            assert(w * w * w * 4 > 0 && w * w * w * 2 * 256 * 256 * 256 * 256 > 0)
                by (nonlinear_arith)
                requires
                    w > 0,
            ;
            lemma_power_positive(sausage_span(), d.sausages.len());
            assert(width() * width() * width() * 4 * power(sausage_span(), d.sausages.len()) > 0)
                by (nonlinear_arith)
                requires
                    width() * width() * width() * 4 > 0,
                    power(sausage_span(), d.sausages.len()) > 0,
            ;
        }
    }
    lemma_int_range(0, universe_size(d));
    lemma_len_subset(codes.to_set(), range);
}

} // verus!
