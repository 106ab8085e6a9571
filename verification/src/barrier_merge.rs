//! Joining collinear barrier runs. Two runs join when they share storey,
//! storey span, kind, switch, axis and grid line, and the second's near end
//! touches or overlaps the first's far end. The result lists horizontal runs,
//! then vertical ones, each ordered by storey, span, kind, switch and
//! position; runs that are neither (which validation does not let through)
//! follow unchanged.
use vstd::prelude::*;

use crate::barriers::BarrierRun;
use crate::ids::SwitchId;

verus! {

/// 0 for a run along a grid row, 1 for one along a grid column, 2 for
/// neither.
pub open spec fn axis(r: BarrierRun) -> int {
    if r.edge[1] == r.edge[3] {
        0
    } else if r.edge[0] == r.edge[2] {
        1
    } else {
        2
    }
}

pub open spec fn imin(a: int, b: int) -> int {
    if a <= b {
        a
    } else {
        b
    }
}

pub open spec fn imax(a: int, b: int) -> int {
    if a <= b {
        b
    } else {
        a
    }
}

/// The grid line a run lies on: its row for a horizontal run, its column
/// for a vertical one.
pub open spec fn line(r: BarrierRun) -> int {
    if axis(r) == 0 {
        r.edge[1] as int
    } else {
        r.edge[0] as int
    }
}

/// The near end of a run along its line.
pub open spec fn lo(r: BarrierRun) -> int {
    if axis(r) == 0 {
        imin(r.edge[0] as int, r.edge[2] as int)
    } else {
        imin(r.edge[1] as int, r.edge[3] as int)
    }
}

/// The far end of a run along its line.
pub open spec fn hi(r: BarrierRun) -> int {
    if axis(r) == 0 {
        imax(r.edge[0] as int, r.edge[2] as int)
    } else {
        imax(r.edge[1] as int, r.edge[3] as int)
    }
}

/// Runs without a switch order before switched ones, which order by switch.
pub open spec fn switch_rank(s: Option<SwitchId>) -> int {
    match s {
        None => 0,
        Some(id) => id.0 + 1,
    }
}

/// Storey, span, kind, switch and inversion, packed so that numeric order
/// is their lexicographic order.
pub open spec fn group_rank(r: BarrierRun) -> int {
    r.level * 0x4_0000_0000_0000 + r.levels * 0x4_0000_0000 + r.kind.0 * 0x4_0000 + switch_rank(r.switch) * 2 + if r.switch_inverted {
        1int
    } else {
        0int
    }
}

pub open spec fn same_group(a: BarrierRun, b: BarrierRun) -> bool {
    &&& a.level == b.level
    &&& a.levels == b.levels
    &&& a.kind == b.kind
    &&& a.switch == b.switch
    &&& a.switch_inverted == b.switch_inverted
}

/// Both runs are axis-aligned on the same grid line, with the same group.
pub open spec fn same_line(a: BarrierRun, b: BarrierRun) -> bool {
    &&& axis(a) < 2
    &&& axis(a) == axis(b)
    &&& same_group(a, b)
    &&& line(a) == line(b)
}

/// The run's endpoints are written near end first.
pub open spec fn normal(r: BarrierRun) -> bool {
    &&& axis(r) == 0 ==> r.edge[0] <= r.edge[2]
    &&& axis(r) == 1 ==> r.edge[1] <= r.edge[3]
}

/// The order of merged runs: by axis, group, line, then near end.
pub open spec fn key_lt(a: BarrierRun, b: BarrierRun) -> bool {
    ||| axis(a) < axis(b)
    ||| axis(a) == axis(b) && group_rank(a) < group_rank(b)
    ||| axis(a) == axis(b) && group_rank(a) == group_rank(b) && line(a) < line(b)
    ||| axis(a) == axis(b) && group_rank(a) == group_rank(b) && line(a) == line(b) && lo(a) < lo(b)
}

pub open spec fn key_le(a: BarrierRun, b: BarrierRun) -> bool {
    !key_lt(b, a)
}

/// The runs that are neither horizontal nor vertical, in order.
pub open spec fn others(s: Seq<BarrierRun>) -> Seq<BarrierRun>
    decreases s.len(),
{
    if s.len() == 0 {
        Seq::empty()
    } else {
        let rest = others(s.drop_last());
        if axis(s.last()) == 2 {
            rest.push(s.last())
        } else {
            rest
        }
    }
}

/// Run `o` is made of runs of `input`: it starts where one starts, ends
/// where one ends, and every unit edge between is covered by one.
pub open spec fn backed(input: Seq<BarrierRun>, o: BarrierRun) -> bool {
    &&& exists|q: int| 0 <= q < input.len() && same_line(#[trigger] input[q], o) && lo(input[q]) == lo(o)
    &&& exists|q: int| 0 <= q < input.len() && same_line(#[trigger] input[q], o) && hi(input[q]) == hi(o)
    &&& forall|t: int| lo(o) <= t < hi(o) ==> #[trigger] unit_covered(input, o, t)
}

/// Some run of `input` on the line of `o` covers the unit edge from `t` to
/// `t + 1`.
pub open spec fn unit_covered(input: Seq<BarrierRun>, o: BarrierRun, t: int) -> bool {
    exists|q: int| 0 <= q < input.len() && same_line(#[trigger] input[q], o) && lo(input[q]) <= t < hi(input[q])
}

/// Run `o` lies on the same line as `r` and reaches over it.
pub open spec fn contains(o: BarrierRun, r: BarrierRun) -> bool {
    same_line(o, r) && lo(o) <= lo(r) && hi(r) <= hi(o)
}

/// Some run of `out` reaches over `r`.
pub open spec fn inside_one_of(out: Seq<BarrierRun>, r: BarrierRun) -> bool {
    exists|a: int| 0 <= a < out.len() && contains(#[trigger] out[a], r)
}

/// `out` is `input` merged: first the axis-aligned runs, normalised, in
/// strictly ascending order, each made of input runs, each input run inside
/// one of them, and no two on one line touching; then the other runs of
/// `input`, unchanged and in their order.
pub open spec fn merged_layout(input: Seq<BarrierRun>, out: Seq<BarrierRun>) -> bool {
    let m = out.len() - others(input).len();
    let aligned = out.take(m);
    &&& m >= 0
    &&& out == aligned + others(input)
    &&& aligned_normal(aligned)
    &&& forall|i: int, j: int| 0 <= i < j < m ==> key_lt(#[trigger] aligned[i], #[trigger] aligned[j])
    &&& forall|i: int, j: int|
        0 <= i < j < m && same_line(#[trigger] aligned[i], #[trigger] aligned[j]) ==> hi(aligned[i]) < lo(aligned[j])
    &&& forall|i: int| 0 <= i < m ==> backed(input, #[trigger] aligned[i])
    &&& forall|q: int| 0 <= q < input.len() && axis(#[trigger] input[q]) < 2 ==> inside_one_of(aligned, input[q])
}

proof fn lemma_group_rank(a: BarrierRun, b: BarrierRun)
    ensures
        group_rank(a) == group_rank(b) <==> same_group(a, b),
{
    let sa = switch_rank(a.switch);
    let sb = switch_rank(b.switch);
    assert(0 <= sa <= 0x1_0000 && 0 <= sb <= 0x1_0000);
    if group_rank(a) == group_rank(b) {
        assert(a.level == b.level);
        assert(a.levels == b.levels);
        assert(a.kind.0 == b.kind.0);
        assert(sa == sb);
        assert(a.switch_inverted == b.switch_inverted);
        match a.switch {
            None => {},
            Some(x) => match b.switch {
                None => {},
                Some(y) => {
                    assert(x.0 == y.0);
                },
            },
        }
    }
}

proof fn lemma_key_trans(a: BarrierRun, b: BarrierRun, c: BarrierRun)
    ensures
        key_le(a, b) && key_le(b, c) ==> key_le(a, c),
        key_lt(a, b) && key_le(b, c) ==> key_lt(a, c),
        key_le(a, b) && key_lt(b, c) ==> key_lt(a, c),
        key_lt(a, b) || key_le(b, a),
{
}

/// Keys equal on axis, group and line mean the runs share a line.
proof fn lemma_same_line_of_key(a: BarrierRun, b: BarrierRun)
    requires
        axis(a) < 2,
        axis(a) == axis(b),
        group_rank(a) == group_rank(b),
        line(a) == line(b),
    ensures
        same_line(a, b),
{
    lemma_group_rank(a, b);
}

pub fn group_rank_of(r: &BarrierRun) -> (g: u64)
    ensures
        g as int == group_rank(*r),
{
    let sw: u64 = match r.switch {
        None => 0,
        Some(id) => id.0 as u64 + 1,
    };
    let inv: u64 = if r.switch_inverted {
        1
    } else {
        0
    };
    (r.level as u64) * 0x4_0000_0000_0000 + (r.levels as u64) * 0x4_0000_0000 + (r.kind.0 as u64) * 0x4_0000 + sw * 2
        + inv
}

fn axis_of(r: &BarrierRun) -> (a: u8)
    ensures
        a as int == axis(*r),
{
    if r.edge[1] == r.edge[3] {
        0
    } else if r.edge[0] == r.edge[2] {
        1
    } else {
        2
    }
}

/// The run with its endpoints written near end first.
pub fn normalize_endpoints(r: BarrierRun) -> (n: BarrierRun)
    ensures
        axis(n) == axis(r),
        line(n) == line(r),
        lo(n) == lo(r),
        hi(n) == hi(r),
        same_group(n, r),
        normal(n),
        axis(r) == 2 ==> n == r,
{
    let mut n = r;
    if r.edge[1] == r.edge[3] {
        if r.edge[0] > r.edge[2] {
            n.edge = [r.edge[2], r.edge[1], r.edge[0], r.edge[3]];
        }
    } else if r.edge[0] == r.edge[2] && r.edge[1] > r.edge[3] {
        n.edge = [r.edge[0], r.edge[3], r.edge[2], r.edge[1]];
    }
    n
}

fn key_lt_exec(a: &BarrierRun, b: &BarrierRun) -> (lt: bool)
    requires
        normal(*a),
        normal(*b),
        axis(*a) < 2,
        axis(*b) < 2,
    ensures
        lt == key_lt(*a, *b),
{
    let xa = axis_of(a);
    let xb = axis_of(b);
    let ga = group_rank_of(a);
    let gb = group_rank_of(b);
    let la = if xa == 0 {
        a.edge[1]
    } else {
        a.edge[0]
    };
    let lb = if xb == 0 {
        b.edge[1]
    } else {
        b.edge[0]
    };
    let sa = if xa == 0 {
        a.edge[0]
    } else {
        a.edge[1]
    };
    let sb = if xb == 0 {
        b.edge[0]
    } else {
        b.edge[1]
    };
    xa < xb || (xa == xb && (ga < gb || (ga == gb && (la < lb || (la == lb && sa < sb)))))
}

/// `r` has the same axis, group, line and ends as `s`.
pub open spec fn same_segment(r: BarrierRun, s: BarrierRun) -> bool {
    same_line(r, s) && lo(r) == lo(s) && hi(r) == hi(s)
}

pub open spec fn ascending(s: Seq<BarrierRun>) -> bool {
    forall|a: int, b: int| 0 <= a < b < s.len() ==> key_le(#[trigger] s[a], #[trigger] s[b])
}

pub open spec fn aligned_normal(s: Seq<BarrierRun>) -> bool {
    forall|k: int| 0 <= k < s.len() ==> axis(#[trigger] s[k]) < 2 && normal(s[k])
}

/// Some run of `input` has the same axis, group, line and ends as `r`.
pub open spec fn from_input(input: Seq<BarrierRun>, r: BarrierRun) -> bool {
    exists|q: int| 0 <= q < input.len() && same_segment(r, #[trigger] input[q])
}

/// Some run of `sorted` has the same axis, group, line and ends as `r`.
pub open spec fn in_sorted(sorted: Seq<BarrierRun>, r: BarrierRun) -> bool {
    exists|k: int| 0 <= k < sorted.len() && same_segment(#[trigger] sorted[k], r)
}

/// `sorted` holds, normalised, exactly the axis-aligned runs of `input`.
pub open spec fn sorted_from(sorted: Seq<BarrierRun>, input: Seq<BarrierRun>) -> bool {
    &&& aligned_normal(sorted)
    &&& ascending(sorted)
    &&& forall|k: int| 0 <= k < sorted.len() ==> #[trigger] from_input(input, sorted[k])
    &&& forall|q: int| 0 <= q < input.len() && axis(#[trigger] input[q]) < 2 ==> in_sorted(sorted, input[q])
}

/// Insert `x` into an ascending list after every run that does not order
/// after it.
fn insert_sorted_run(list: &mut Vec<BarrierRun>, x: BarrierRun)
    requires
        aligned_normal(old(list)@),
        ascending(old(list)@),
        axis(x) < 2,
        normal(x),
    ensures
        aligned_normal(final(list)@),
        ascending(final(list)@),
        exists|p: int| 0 <= p <= old(list)@.len() && final(list)@ == old(list)@.insert(p, x),
{
    let mut p: usize = 0;
    while p < list.len()
        invariant
            p <= list@.len(),
            list@ == old(list)@,
            aligned_normal(list@),
            axis(x) < 2,
            normal(x),
            forall|k: int| 0 <= k < p ==> key_le(#[trigger] list@[k], x),
        ensures
            p <= list@.len(),
            list@ == old(list)@,
            forall|k: int| 0 <= k < p ==> key_le(#[trigger] list@[k], x),
            p < list@.len() ==> key_lt(x, list@[p as int]),
        decreases list@.len() - p,
    {
        assert(axis(list@[p as int]) < 2 && normal(list@[p as int]));
        if key_lt_exec(&x, &list[p]) {
            break;
        }
        p = p + 1;
    }
    let ghost prev = list@;
    list.insert(p, x);
    proof {
        assert forall|a: int, b: int| 0 <= a < b < list@.len() implies key_le(#[trigger] list@[a], #[trigger] list@[b]) by {
            if b < p {
                assert(list@[a] == prev[a] && list@[b] == prev[b]);
            } else if b == p {
                assert(list@[a] == prev[a]);
            } else if a < p {
                assert(list@[a] == prev[a] && list@[b] == prev[b - 1]);
                lemma_key_trans(prev[a], x, prev[p as int]);
                lemma_key_trans(prev[a], prev[p as int], prev[b - 1]);
            } else if a == p {
                assert(list@[b] == prev[b - 1]);
                lemma_key_trans(x, prev[p as int], prev[b - 1]);
            } else {
                assert(list@[a] == prev[a - 1] && list@[b] == prev[b - 1]);
            }
        }
        assert forall|k: int| 0 <= k < list@.len() implies axis(#[trigger] list@[k]) < 2 && normal(list@[k]) by {
            if k < p {
                assert(list@[k] == prev[k]);
            } else if k > p {
                assert(list@[k] == prev[k - 1]);
            }
        }
        assert(list@ == prev.insert(p as int, x));
    }
}

/// `cur` with its far end moved to `h`.
fn with_hi(cur: BarrierRun, h: i32) -> (n: BarrierRun)
    requires
        axis(cur) < 2,
        normal(cur),
        h >= hi(cur),
    ensures
        axis(n) == axis(cur),
        normal(n),
        line(n) == line(cur),
        lo(n) == lo(cur),
        hi(n) == h,
        same_group(n, cur),
{
    let mut n = cur;
    if cur.edge[1] == cur.edge[3] {
        n.edge = [cur.edge[0], cur.edge[1], h, cur.edge[3]];
    } else {
        n.edge = [cur.edge[0], cur.edge[1], cur.edge[2], h];
    }
    n
}

fn hi_of(r: &BarrierRun) -> (h: i32)
    requires
        axis(*r) < 2,
        normal(*r),
    ensures
        h == hi(*r),
{
    if r.edge[1] == r.edge[3] {
        r.edge[2]
    } else {
        r.edge[3]
    }
}

fn lo_of(r: &BarrierRun) -> (l: i32)
    requires
        axis(*r) < 2,
        normal(*r),
    ensures
        l == lo(*r),
{
    if r.edge[1] == r.edge[3] {
        r.edge[0]
    } else {
        r.edge[1]
    }
}

fn same_line_exec(a: &BarrierRun, b: &BarrierRun) -> (same: bool)
    requires
        axis(*a) < 2,
        normal(*a),
        axis(*b) < 2,
        normal(*b),
    ensures
        same == same_line(*a, *b),
{
    let xa = axis_of(a);
    let xb = axis_of(b);
    let la = if xa == 0 {
        a.edge[1]
    } else {
        a.edge[0]
    };
    let lb = if xb == 0 {
        b.edge[1]
    } else {
        b.edge[0]
    };
    let ga = group_rank_of(a);
    let gb = group_rank_of(b);
    proof {
        lemma_group_rank(*a, *b);
    }
    xa == xb && ga == gb && la == lb
}

/// In an ascending list, a later run on the line of an earlier one starts
/// no nearer.
proof fn lemma_later_on_line(x: BarrierRun, y: BarrierRun)
    requires
        key_le(x, y),
        same_line(x, y),
    ensures
        lo(x) <= lo(y),
{
    lemma_group_rank(x, y);
}

/// Between two runs of one line in key order, a third run lies on that
/// line too.
proof fn lemma_between_on_line(x: BarrierRun, c: BarrierRun, y: BarrierRun)
    requires
        key_le(x, c),
        key_le(c, y),
        same_line(x, y),
        axis(c) < 2,
    ensures
        same_line(x, c),
{
    lemma_group_rank(x, y);
    lemma_same_line_of_key(x, c);
}

/// What the run being grown holds of runs `cs..i` of `s`.
#[verifier::opaque]
spec fn cur_inv(s: Seq<BarrierRun>, cur: BarrierRun, cs: int, i: int) -> bool {
    &&& axis(cur) < 2
    &&& normal(cur)
    &&& same_line(cur, s[cs])
    &&& lo(cur) == lo(s[cs])
    &&& forall|q: int| cs <= q < i ==> contains(cur, #[trigger] s[q])
    &&& exists|q: int| cs <= q < i && hi(#[trigger] s[q]) == hi(cur)
    &&& forall|t: int| lo(cur) <= t < hi(cur) ==> #[trigger] unit_covered(s, cur, t)
}

/// The joined runs that are done: normalised, strictly ascending, apart on
/// each line, and made of runs of `s`.
#[verifier::opaque]
spec fn out_inv(s: Seq<BarrierRun>, out: Seq<BarrierRun>) -> bool {
    &&& aligned_normal(out)
    &&& forall|a: int, b: int| 0 <= a < b < out.len() ==> key_lt(#[trigger] out[a], #[trigger] out[b])
    &&& forall|a: int, b: int|
        0 <= a < b < out.len() && same_line(#[trigger] out[a], #[trigger] out[b]) ==> hi(out[a]) < lo(out[b])
    &&& forall|a: int| 0 <= a < out.len() ==> backed(s, #[trigger] out[a])
}

/// Runs before `cs` lie inside joined runs that are done.
#[verifier::opaque]
spec fn done_inv(s: Seq<BarrierRun>, out: Seq<BarrierRun>, cs: int) -> bool {
    forall|q: int| 0 <= q < cs ==> #[trigger] inside_one_of(out, s[q])
}

/// The run being grown orders after the done ones and lies apart from those
/// on its line.
#[verifier::opaque]
spec fn link_inv(out: Seq<BarrierRun>, cur: BarrierRun) -> bool {
    forall|a: int| 0 <= a < out.len() ==> key_lt(#[trigger] out[a], cur) && (same_line(out[a], cur) ==> hi(out[a]) < lo(cur))
}

/// The state of the sweep after the first `i` runs: `out` holds the joined
/// runs that are done, `cur` the one being grown, which began at run `cs`.
spec fn sweep_inv(s: Seq<BarrierRun>, out: Seq<BarrierRun>, cur: BarrierRun, cs: int, i: int) -> bool {
    &&& aligned_normal(s)
    &&& ascending(s)
    &&& 1 <= i <= s.len()
    &&& 0 <= cs < i
    &&& cur_inv(s, cur, cs, i)
    &&& out_inv(s, out)
    &&& done_inv(s, out, cs)
    &&& link_inv(out, cur)
}

/// What the sweep delivers: `out` is the joined form of `s`.
pub open spec fn swept(s: Seq<BarrierRun>, out: Seq<BarrierRun>) -> bool {
    &&& aligned_normal(out)
    &&& forall|i: int, j: int| 0 <= i < j < out.len() ==> key_lt(#[trigger] out[i], #[trigger] out[j])
    &&& forall|i: int, j: int|
        0 <= i < j < out.len() && same_line(#[trigger] out[i], #[trigger] out[j]) ==> hi(out[i]) < lo(out[j])
    &&& forall|i: int| 0 <= i < out.len() ==> backed(s, #[trigger] out[i])
    &&& forall|q: int| 0 <= q < s.len() ==> #[trigger] inside_one_of(out, s[q])
}

proof fn lemma_sweep_init(s: Seq<BarrierRun>)
    requires
        aligned_normal(s),
        ascending(s),
        s.len() > 0,
    ensures
        sweep_inv(s, Seq::empty(), s[0], 0, 1),
{
    reveal(cur_inv);
    reveal(out_inv);
    reveal(done_inv);
    reveal(link_inv);
    let cur = s[0];
    assert(axis(s[0]) < 2 && normal(s[0]));
    assert(contains(cur, s[0]));
    assert forall|t: int| lo(cur) <= t < hi(cur) implies #[trigger] unit_covered(s, cur, t) by {
        assert(same_line(s[0], cur));
    }
    assert(hi(s[0]) == hi(cur));
}

proof fn lemma_sweep_join(s: Seq<BarrierRun>, out: Seq<BarrierRun>, cur: BarrierRun, cs: int, i: int, next: BarrierRun)
    requires
        sweep_inv(s, out, cur, cs, i),
        i < s.len(),
        same_line(cur, s[i]),
        lo(s[i]) <= hi(cur),
        axis(next) == axis(cur),
        normal(next),
        line(next) == line(cur),
        lo(next) == lo(cur),
        same_group(next, cur),
        hi(next) == imax(hi(cur), hi(s[i])),
    ensures
        sweep_inv(s, out, next, cs, i + 1),
{
    reveal(cur_inv);
    reveal(link_inv);
    let b = s[i];
    assert(axis(s[i]) < 2 && normal(s[i]));
    assert(key_le(s[cs], s[i]));
    lemma_later_on_line(s[cs], b);
    assert forall|q: int| cs <= q < i + 1 implies contains(next, #[trigger] s[q]) by {
        if q < i {
            assert(contains(cur, s[q]));
        }
    }
    assert forall|t: int| lo(next) <= t < hi(next) implies #[trigger] unit_covered(s, next, t) by {
        if t < hi(cur) {
            assert(unit_covered(s, cur, t));
            let q = choose|q: int| 0 <= q < s.len() && same_line(#[trigger] s[q], cur) && lo(s[q]) <= t < hi(s[q]);
            assert(same_line(s[q], next));
        } else {
            assert(same_line(s[i], next));
        }
    }
    if hi(b) > hi(cur) {
        assert(hi(s[i]) == hi(next));
    } else {
        let q = choose|q: int| cs <= q < i && hi(#[trigger] s[q]) == hi(cur);
        assert(hi(s[q]) == hi(next));
    }
    assert forall|a: int| 0 <= a < out.len() implies key_lt(#[trigger] out[a], next) && (same_line(out[a], next)
        ==> hi(out[a]) < lo(next)) by {
        assert(key_lt(out[a], cur));
    }
}

/// What a grown run offers once it is done.
proof fn lemma_cur_done(s: Seq<BarrierRun>, cur: BarrierRun, cs: int, i: int)
    requires
        cur_inv(s, cur, cs, i),
        0 <= cs < i <= s.len(),
    ensures
        axis(cur) < 2,
        normal(cur),
        backed(s, cur),
        forall|q: int| cs <= q < i ==> contains(cur, #[trigger] s[q]),
{
    reveal(cur_inv);
    let hq = choose|q: int| cs <= q < i && hi(#[trigger] s[q]) == hi(cur);
    assert(same_line(s[hq], cur));
    assert(same_line(s[cs], cur));
}

proof fn lemma_push_out(s: Seq<BarrierRun>, out: Seq<BarrierRun>, cur: BarrierRun)
    requires
        out_inv(s, out),
        link_inv(out, cur),
        axis(cur) < 2,
        normal(cur),
        backed(s, cur),
    ensures
        out_inv(s, out.push(cur)),
{
    reveal(out_inv);
    reveal(link_inv);
    let o = out.push(cur);
    assert(o[out.len() as int] == cur);
    assert forall|a: int, c: int| 0 <= a < c < o.len() implies key_lt(#[trigger] o[a], #[trigger] o[c]) by {
        if c < out.len() {
            assert(o[a] == out[a] && o[c] == out[c]);
        } else {
            assert(o[a] == out[a]);
        }
    }
    assert forall|a: int, c: int| 0 <= a < c < o.len() && same_line(#[trigger] o[a], #[trigger] o[c]) implies hi(o[a])
        < lo(o[c]) by {
        if c < out.len() {
            assert(o[a] == out[a] && o[c] == out[c]);
        } else {
            assert(o[a] == out[a]);
        }
    }
    assert forall|a: int| 0 <= a < o.len() implies backed(s, #[trigger] o[a]) by {
        if a < out.len() {
            assert(o[a] == out[a]);
        }
    }
    assert forall|k: int| 0 <= k < o.len() implies axis(#[trigger] o[k]) < 2 && normal(o[k]) by {
        if k < out.len() {
            assert(o[k] == out[k]);
        }
    }
}

proof fn lemma_push_done(s: Seq<BarrierRun>, out: Seq<BarrierRun>, cur: BarrierRun, cs: int, i: int)
    requires
        done_inv(s, out, cs),
        forall|q: int| cs <= q < i ==> contains(cur, #[trigger] s[q]),
    ensures
        done_inv(s, out.push(cur), i),
{
    reveal(done_inv);
    let o = out.push(cur);
    assert forall|q: int| 0 <= q < i implies #[trigger] inside_one_of(o, s[q]) by {
        if q < cs {
            assert(inside_one_of(out, s[q]));
            let a = choose|a: int| 0 <= a < out.len() && contains(#[trigger] out[a], s[q]);
            assert(o[a] == out[a]);
        } else {
            assert(contains(o[out.len() as int], s[q]));
        }
    }
    assert(done_inv(s, o, i));
}

proof fn lemma_sweep_new(s: Seq<BarrierRun>, out: Seq<BarrierRun>, cur: BarrierRun, cs: int, i: int)
    requires
        sweep_inv(s, out, cur, cs, i),
        i < s.len(),
        !(same_line(cur, s[i]) && lo(s[i]) <= hi(cur)),
    ensures
        sweep_inv(s, out.push(cur), s[i], i, i + 1),
{
    lemma_cur_done(s, cur, cs, i);
    lemma_push_out(s, out, cur);
    lemma_push_done(s, out, cur, cs, i);
    let b = s[i];
    assert(axis(s[i]) < 2 && normal(s[i]));
    assert(key_le(s[cs], s[i]));
    assert(key_le(cur, b)) by {
        reveal(cur_inv);
    }
    if !key_lt(cur, b) {
        reveal(cur_inv);
        lemma_same_line_of_key(cur, b);
        assert(false);
    }
    let o = out.push(cur);
    assert(link_inv(o, b)) by {
        reveal(link_inv);
        assert forall|a: int| 0 <= a < o.len() implies key_lt(#[trigger] o[a], b) && (same_line(o[a], b) ==> hi(o[a])
            < lo(b)) by {
            if a < out.len() {
                assert(o[a] == out[a]);
                lemma_key_trans(out[a], cur, b);
                if same_line(out[a], b) {
                    lemma_between_on_line(out[a], cur, b);
                    lemma_later_on_line(cur, b);
                }
            } else {
                assert(o[a] == cur);
            }
        }
    }
    assert(cur_inv(s, b, i, i + 1)) by {
        reveal(cur_inv);
        assert(contains(b, s[i]));
        assert forall|t: int| lo(b) <= t < hi(b) implies #[trigger] unit_covered(s, b, t) by {
            assert(same_line(s[i], b));
        }
        assert(hi(s[i]) == hi(b));
    }
}

proof fn lemma_sweep_finish(s: Seq<BarrierRun>, out: Seq<BarrierRun>, cur: BarrierRun, cs: int)
    requires
        sweep_inv(s, out, cur, cs, s.len() as int),
    ensures
        swept(s, out.push(cur)),
{
    lemma_cur_done(s, cur, cs, s.len() as int);
    lemma_push_out(s, out, cur);
    lemma_push_done(s, out, cur, cs, s.len() as int);
    reveal(out_inv);
    reveal(done_inv);
}

/// Join the runs of an ascending list of normalised axis-aligned runs.
fn sweep(s: &Vec<BarrierRun>) -> (out: Vec<BarrierRun>)
    requires
        aligned_normal(s@),
        ascending(s@),
    ensures
        swept(s@, out@),
{
    let mut out: Vec<BarrierRun> = Vec::new();
    if s.len() == 0 {
        return out;
    }
    let mut cur = s[0];
    let ghost mut cs: int = 0;
    proof {
        lemma_sweep_init(s@);
    }
    let mut i: usize = 1;
    while i < s.len()
        invariant
            aligned_normal(s@),
            ascending(s@),
            1 <= i <= s@.len(),
            axis(cur) < 2,
            normal(cur),
            sweep_inv(s@, out@, cur, cs, i as int),
        decreases s@.len() - i,
    {
        let b = s[i];
        proof {
            assert(axis(s@[i as int]) < 2 && normal(s@[i as int]));
        }
        let joins = same_line_exec(&cur, &b) && lo_of(&b) <= hi_of(&cur);
        if joins {
            let bh = hi_of(&b);
            let ch = hi_of(&cur);
            let next = if bh > ch {
                with_hi(cur, bh)
            } else {
                cur
            };
            proof {
                lemma_sweep_join(s@, out@, cur, cs, i as int, next);
            }
            cur = next;
        } else {
            proof {
                lemma_sweep_new(s@, out@, cur, cs, i as int);
                cs = i as int;
            }
            out.push(cur);
            cur = b;
        }
        i = i + 1;
    }
    proof {
        lemma_sweep_finish(s@, out@, cur, cs);
    }
    out.push(cur);
    out
}

proof fn lemma_backed_transfer(s: Seq<BarrierRun>, input: Seq<BarrierRun>, o: BarrierRun)
    requires
        backed(s, o),
        forall|k: int| 0 <= k < s.len() ==> #[trigger] from_input(input, s[k]),
    ensures
        backed(input, o),
{
    let k1 = choose|q: int| 0 <= q < s.len() && same_line(#[trigger] s[q], o) && lo(s[q]) == lo(o);
    assert(from_input(input, s[k1]));
    let q1 = choose|q: int| 0 <= q < input.len() && same_segment(s[k1], #[trigger] input[q]);
    assert(same_line(input[q1], o) && lo(input[q1]) == lo(o));
    let k2 = choose|q: int| 0 <= q < s.len() && same_line(#[trigger] s[q], o) && hi(s[q]) == hi(o);
    assert(from_input(input, s[k2]));
    let q2 = choose|q: int| 0 <= q < input.len() && same_segment(s[k2], #[trigger] input[q]);
    assert(same_line(input[q2], o) && hi(input[q2]) == hi(o));
    assert forall|t: int| lo(o) <= t < hi(o) implies #[trigger] unit_covered(input, o, t) by {
        assert(unit_covered(s, o, t));
        let k = choose|q: int| 0 <= q < s.len() && same_line(#[trigger] s[q], o) && lo(s[q]) <= t < hi(s[q]);
        assert(from_input(input, s[k]));
        let q = choose|q: int| 0 <= q < input.len() && same_segment(s[k], #[trigger] input[q]);
        assert(same_line(input[q], o) && lo(input[q]) <= t < hi(input[q]));
    }
}

proof fn lemma_others_step(s: Seq<BarrierRun>, i: int)
    requires
        0 <= i < s.len(),
    ensures
        others(s.take(i + 1)) == if axis(s[i]) == 2 {
            others(s.take(i)).push(s[i])
        } else {
            others(s.take(i))
        },
{
    assert(s.take(i + 1).drop_last() == s.take(i));
    assert(s.take(i + 1).last() == s[i]);
}

proof fn lemma_sorted_insert(prev: Seq<BarrierRun>, a: Seq<BarrierRun>, p: int, x: BarrierRun, r: BarrierRun)
    requires
        sorted_from(prev, a),
        0 <= p <= prev.len(),
        aligned_normal(prev.insert(p, x)),
        ascending(prev.insert(p, x)),
        same_segment(x, r),
    ensures
        sorted_from(prev.insert(p, x), a.push(r)),
{
    let next = prev.insert(p, x);
    let b = a.push(r);
    assert forall|k: int| 0 <= k < next.len() implies #[trigger] from_input(b, next[k]) by {
        if k == p {
            assert(b[a.len() as int] == r);
            assert(same_segment(next[k], b[a.len() as int]));
        } else {
            let j = if k < p { k } else { k - 1 };
            assert(next[k] == prev[j]);
            assert(from_input(a, prev[j]));
            let q = choose|q: int| 0 <= q < a.len() && same_segment(prev[j], #[trigger] a[q]);
            assert(b[q] == a[q]);
            assert(same_segment(next[k], b[q]));
        }
    }
    assert forall|q: int| 0 <= q < b.len() && axis(#[trigger] b[q]) < 2 implies in_sorted(next, b[q]) by {
        if q == a.len() {
            assert(next[p] == x);
            assert(same_segment(next[p], b[q]));
        } else {
            assert(b[q] == a[q]);
            assert(in_sorted(prev, a[q]));
            let k = choose|k: int| 0 <= k < prev.len() && same_segment(#[trigger] prev[k], a[q]);
            let j = if k < p { k } else { k + 1 };
            assert(next[j] == prev[k]);
            assert(same_segment(next[j], b[q]));
        }
    }
}

proof fn lemma_sorted_skip(prev: Seq<BarrierRun>, a: Seq<BarrierRun>, r: BarrierRun)
    requires
        sorted_from(prev, a),
        axis(r) == 2,
    ensures
        sorted_from(prev, a.push(r)),
{
    let b = a.push(r);
    assert forall|k: int| 0 <= k < prev.len() implies #[trigger] from_input(b, prev[k]) by {
        assert(from_input(a, prev[k]));
        let q = choose|q: int| 0 <= q < a.len() && same_segment(prev[k], #[trigger] a[q]);
        assert(b[q] == a[q]);
        assert(same_segment(prev[k], b[q]));
    }
    assert forall|q: int| 0 <= q < b.len() && axis(#[trigger] b[q]) < 2 implies in_sorted(prev, b[q]) by {
        assert(b[q] == a[q]);
        assert(in_sorted(prev, a[q]));
    }
}

/// The axis-aligned runs, normalised and in ascending order, and the others
/// in their order.
fn partition_runs(runs: &Vec<BarrierRun>) -> (parts: (Vec<BarrierRun>, Vec<BarrierRun>))
    ensures
        sorted_from(parts.0@, runs@),
        parts.1@ == others(runs@),
{
    let mut sorted: Vec<BarrierRun> = Vec::new();
    let mut rest: Vec<BarrierRun> = Vec::new();
    let mut i: usize = 0;
    proof {
        assert(sorted_from(sorted@, runs@.take(0)));
    }
    while i < runs.len()
        invariant
            i <= runs@.len(),
            sorted_from(sorted@, runs@.take(i as int)),
            rest@ == others(runs@.take(i as int)),
        decreases runs@.len() - i,
    {
        let r = runs[i];
        proof {
            lemma_others_step(runs@, i as int);
            assert(runs@.take(i + 1) == runs@.take(i as int).push(r));
        }
        if axis_of(&r) < 2 {
            let n = normalize_endpoints(r);
            let ghost prev = sorted@;
            insert_sorted_run(&mut sorted, n);
            proof {
                let p = choose|p: int| 0 <= p <= prev.len() && sorted@ == prev.insert(p, n);
                lemma_sorted_insert(prev, runs@.take(i as int), p, n, r);
            }
        } else {
            proof {
                lemma_sorted_skip(sorted@, runs@.take(i as int), r);
            }
            rest.push(r);
        }
        i = i + 1;
    }
    proof {
        assert(runs@.take(runs@.len() as int) == runs@);
    }
    (sorted, rest)
}

proof fn lemma_merge_result(runs: Seq<BarrierRun>, sorted: Seq<BarrierRun>, aligned: Seq<BarrierRun>)
    requires
        sorted_from(sorted, runs),
        swept(sorted, aligned),
    ensures
        forall|a: int| 0 <= a < aligned.len() ==> backed(runs, #[trigger] aligned[a]),
        forall|q: int| 0 <= q < runs.len() && axis(#[trigger] runs[q]) < 2 ==> inside_one_of(aligned, runs[q]),
{
    assert forall|a: int| 0 <= a < aligned.len() implies backed(runs, #[trigger] aligned[a]) by {
        lemma_backed_transfer(sorted, runs, aligned[a]);
    }
    assert forall|q: int| 0 <= q < runs.len() && axis(#[trigger] runs[q]) < 2 implies inside_one_of(aligned, runs[q]) by {
        assert(in_sorted(sorted, runs[q]));
        let k = choose|k: int| 0 <= k < sorted.len() && same_segment(#[trigger] sorted[k], runs[q]);
        assert(inside_one_of(aligned, sorted[k]));
        let a = choose|a: int| 0 <= a < aligned.len() && contains(#[trigger] aligned[a], sorted[k]);
        assert(contains(aligned[a], runs[q]));
    }
}

proof fn lemma_layout(runs: Seq<BarrierRun>, sorted: Seq<BarrierRun>, aligned: Seq<BarrierRun>, out: Seq<BarrierRun>)
    requires
        sorted_from(sorted, runs),
        swept(sorted, aligned),
        out == aligned + others(runs),
    ensures
        merged_layout(runs, out),
{
    lemma_merge_result(runs, sorted, aligned);
    assert(out.take(aligned.len() as int) == aligned);
}

/// Merge collinear touching runs of one group into single runs; see
/// `merged_layout` for what comes out.
pub fn merge_barriers(runs: Vec<BarrierRun>) -> (merged: Vec<BarrierRun>)
    ensures
        merged_layout(runs@, merged@),
{
    let (sorted, rest) = partition_runs(&runs);
    let mut out = sweep(&sorted);
    let ghost aligned = out@;
    let mut j: usize = 0;
    while j < rest.len()
        invariant
            j <= rest@.len(),
            out@ == aligned + rest@.take(j as int),
        decreases rest@.len() - j,
    {
        out.push(rest[j]);
        proof {
            assert(rest@.take(j + 1) == rest@.take(j as int).push(rest@[j as int]));
        }
        j = j + 1;
    }
    proof {
        assert(rest@.take(rest@.len() as int) == rest@);
        lemma_layout(runs@, sorted@, aligned, out@);
    }
    out
}

} // verus!
