//! The canonical form of a validated map: every list in one fixed order and
//! without repeats, so two files that say the same thing load the same.
use vstd::prelude::*;

use crate::schema::{ActorSpawnZoneDef, CellDef, MapDef, PlayerSpawnZoneDef, RampDef, WallDef};
use crate::validation::normalized;

verus! {

/// A strict order on the entries of one list, total over their values.
pub trait CanonicalOrder: Sized + Copy {
    spec fn before(self, other: Self) -> bool;

    fn precedes(&self, other: &Self) -> (b: bool)
        ensures
            b == self.before(*other),
    ;

    proof fn lemma_strict_total(a: Self, b: Self, c: Self)
        ensures
            !a.before(a),
            a.before(b) && b.before(c) ==> a.before(c),
            a != b ==> a.before(b) || b.before(a),
    ;
}

/// Each entry comes before the next.
pub open spec fn ascending<T: CanonicalOrder>(s: Seq<T>) -> bool {
    forall|a: int, b: int| 0 <= a < b < s.len() ==> (#[trigger] s[a]).before(#[trigger] s[b])
}

/// `out` lists exactly the values of `input`.
pub open spec fn same_values<T>(out: Seq<T>, input: Seq<T>) -> bool {
    forall|x: T| #[trigger] out.contains(x) <==> input.contains(x)
}

/// Insert `x` into an ascending list unless it is already there.
fn insert_unique<T: CanonicalOrder>(out: &mut Vec<T>, x: T)
    requires
        ascending(old(out)@),
    ensures
        ascending(final(out)@),
        forall|y: T| #[trigger] final(out)@.contains(y) <==> old(out)@.contains(y) || y == x,
{
    let ghost before = out@;
    let mut p: usize = 0;
    while p < out.len()
        invariant
            out@ == before,
            p <= out@.len(),
            forall|q: int| 0 <= q < p ==> (#[trigger] out@[q]).before(x),
        ensures
            p <= out@.len(),
            out@ == before,
            forall|q: int| 0 <= q < p ==> (#[trigger] out@[q]).before(x),
            p < out@.len() ==> !out@[p as int].before(x),
        decreases out@.len() - p,
    {
        if !out[p].precedes(&x) {
            break;
        }
        p = p + 1;
    }
    if p < out.len() && !x.precedes(&out[p]) {
        proof {
            T::lemma_strict_total(x, out@[p as int], x);
            assert(out@[p as int] == x);
        }
        return;
    }
    out.insert(p, x);
    proof {
        let s = out@;
        assert forall|a: int, b: int| 0 <= a < b < s.len() implies (#[trigger] s[a]).before(#[trigger] s[b]) by {
            if a < p && b == p {
            } else if a < p && b > p {
                assert(before[a].before(before[b - 1]));
            } else if a == p && b > p {
                if b - 1 > p {
                    T::lemma_strict_total(x, before[p as int], before[b - 1]);
                    assert(before[p as int].before(before[b - 1]));
                }
            } else if a > p {
                assert(before[a - 1].before(before[b - 1]));
            } else {
                assert(before[a].before(before[b]));
            }
        }
        assert forall|y: T| #[trigger] s.contains(y) implies before.contains(y) || y == x by {
            let t = choose|t: int| 0 <= t < s.len() && s[t] == y;
            if t < p {
                assert(before[t] == y);
            } else if t > p {
                assert(before[t - 1] == y);
            }
        }
        assert forall|y: T| before.contains(y) || y == x implies #[trigger] s.contains(y) by {
            if y == x {
                assert(s[p as int] == y);
            } else {
                let t = choose|t: int| 0 <= t < before.len() && before[t] == y;
                if t < p {
                    assert(s[t] == y);
                } else {
                    assert(s[t + 1] == y);
                }
            }
        }
    }
}

/// The values of `list`, ascending, each once.
pub fn canonical_list<T: CanonicalOrder>(list: &Vec<T>) -> (out: Vec<T>)
    ensures
        ascending(out@),
        same_values(out@, list@),
{
    let mut out: Vec<T> = Vec::new();
    let mut i: usize = 0;
    while i < list.len()
        invariant
            i <= list@.len(),
            ascending(out@),
            forall|y: T| #[trigger] out@.contains(y) <==> list@.take(i as int).contains(y),
        decreases list@.len() - i,
    {
        let ghost prev = out@;
        insert_unique(&mut out, list[i]);
        proof {
            assert forall|y: T| #[trigger] out@.contains(y) <==> list@.take(i as int + 1).contains(y) by {
                assert(prev.contains(y) <==> list@.take(i as int).contains(y));
                let next = list@.take(i as int + 1);
                assert(next == list@.take(i as int).push(list@[i as int]));
                if list@.take(i as int).contains(y) {
                    let t = choose|t: int| 0 <= t < i && list@.take(i as int)[t] == y;
                    assert(next[t] == y);
                    assert(next.contains(y));
                }
                if y == list@[i as int] {
                    assert(next[i as int] == y);
                    assert(next.contains(y));
                }
                if next.contains(y) {
                    let t = choose|t: int| 0 <= t < next.len() && next[t] == y;
                    if t < i {
                        assert(list@.take(i as int)[t] == y);
                        assert(list@.take(i as int).contains(y));
                    }
                }
            }
        }
        i = i + 1;
    }
    proof {
        assert(list@.take(list@.len() as int) == list@);
    }
    out
}

/// `a` before `b`, or level with it and `rest` decides.
pub open spec fn lex(a: int, b: int, rest: bool) -> bool {
    a < b || (a == b && rest)
}

/// The exec form of `lex`, for the step that decides or passes on.
fn lex_step(a: i64, b: i64, rest: bool) -> (r: bool)
    ensures
        r == lex(a as int, b as int, rest),
{
    a < b || (a == b && rest)
}

impl CanonicalOrder for CellDef {
    /// Row by row, then west to east.
    open spec fn before(self, other: Self) -> bool {
        lex(self.row as int, other.row as int, self.col < other.col)
    }

    fn precedes(&self, other: &Self) -> (b: bool) {
        lex_step(self.row as i64, other.row as i64, self.col < other.col)
    }

    proof fn lemma_strict_total(a: Self, b: Self, c: Self) {
    }
}

impl CanonicalOrder for WallDef {
    /// By the first end's column and row, then the second's.
    open spec fn before(self, other: Self) -> bool {
        lex(
            self.c0 as int,
            other.c0 as int,
            lex(self.r0 as int, other.r0 as int, lex(self.c1 as int, other.c1 as int, self.r1 < other.r1)),
        )
    }

    fn precedes(&self, other: &Self) -> (b: bool) {
        let last = lex_step(self.c1 as i64, other.c1 as i64, self.r1 < other.r1);
        let rest = lex_step(self.r0 as i64, other.r0 as i64, last);
        lex_step(self.c0 as i64, other.c0 as i64, rest)
    }

    proof fn lemma_strict_total(a: Self, b: Self, c: Self) {
    }
}

impl CanonicalOrder for RampDef {
    /// By lower level, then the low end, then the high end.
    open spec fn before(self, other: Self) -> bool {
        lex(
            self.lower_level as int,
            other.lower_level as int,
            lex(
                self.low[0] as int,
                other.low[0] as int,
                lex(
                    self.low[1] as int,
                    other.low[1] as int,
                    lex(self.high[0] as int, other.high[0] as int, self.high[1] < other.high[1]),
                ),
            ),
        )
    }

    fn precedes(&self, other: &Self) -> (b: bool) {
        let high = lex_step(self.high[0] as i64, other.high[0] as i64, self.high[1] < other.high[1]);
        let low1 = lex_step(self.low[1] as i64, other.low[1] as i64, high);
        let low0 = lex_step(self.low[0] as i64, other.low[0] as i64, low1);
        lex_step(self.lower_level as i64, other.lower_level as i64, low0)
    }

    proof fn lemma_strict_total(a: Self, b: Self, c: Self) {
        if a.low[0] == b.low[0] && a.low[1] == b.low[1] {
            assert(a.low =~= b.low);
        }
        if a.high[0] == b.high[0] && a.high[1] == b.high[1] {
            assert(a.high =~= b.high);
        }
    }
}

impl CanonicalOrder for PlayerSpawnZoneDef {
    /// By level, then the first row and column, then the last.
    open spec fn before(self, other: Self) -> bool {
        lex(
            self.level as int,
            other.level as int,
            lex(
                self.rows[0] as int,
                other.rows[0] as int,
                lex(
                    self.cols[0] as int,
                    other.cols[0] as int,
                    lex(self.rows[1] as int, other.rows[1] as int, self.cols[1] < other.cols[1]),
                ),
            ),
        )
    }

    fn precedes(&self, other: &Self) -> (b: bool) {
        let last = lex_step(self.rows[1] as i64, other.rows[1] as i64, self.cols[1] < other.cols[1]);
        let cols0 = lex_step(self.cols[0] as i64, other.cols[0] as i64, last);
        let rows0 = lex_step(self.rows[0] as i64, other.rows[0] as i64, cols0);
        lex_step(self.level as i64, other.level as i64, rows0)
    }

    proof fn lemma_strict_total(a: Self, b: Self, c: Self) {
        if a.rows[0] == b.rows[0] && a.rows[1] == b.rows[1] {
            assert(a.rows =~= b.rows);
        }
        if a.cols[0] == b.cols[0] && a.cols[1] == b.cols[1] {
            assert(a.cols =~= b.cols);
        }
    }
}

/// Text in the order Rust gives strings: character by character, and a
/// proper prefix first. (Comparing UTF-8 bytes gives the same order.)
pub open spec fn text_before(a: Seq<char>, b: Seq<char>) -> bool
    decreases a.len(),
{
    if a.len() == 0 {
        b.len() > 0
    } else if b.len() == 0 {
        false
    } else if a[0] != b[0] {
        (a[0] as int) < (b[0] as int)
    } else {
        text_before(a.drop_first(), b.drop_first())
    }
}

proof fn lemma_text_before_skip(a: Seq<char>, b: Seq<char>, i: int)
    requires
        0 <= i <= a.len(),
        i <= b.len(),
        forall|t: int| 0 <= t < i ==> a[t] == b[t],
    ensures
        text_before(a, b) == text_before(a.skip(i), b.skip(i)),
    decreases i,
{
    if i > 0 {
        assert(a[0] == b[0]);
        assert(a.drop_first().skip(i - 1) =~= a.skip(i));
        assert(b.drop_first().skip(i - 1) =~= b.skip(i));
        lemma_text_before_skip(a.drop_first(), b.drop_first(), i - 1);
    } else {
        assert(a.skip(0) =~= a);
        assert(b.skip(0) =~= b);
    }
}

/// Whether text `a` comes before text `b`.
pub fn text_precedes(a: &str, b: &str) -> (r: bool)
    ensures
        r == text_before(a@, b@),
{
    let la = a.unicode_len();
    let lb = b.unicode_len();
    let mut i: usize = 0;
    while i < la && i < lb
        invariant
            la == a@.len(),
            lb == b@.len(),
            i <= la,
            i <= lb,
            forall|t: int| 0 <= t < i ==> a@[t] == b@[t],
        decreases la - i,
    {
        let ca = a.get_char(i);
        let cb = b.get_char(i);
        if ca != cb {
            proof {
                lemma_text_before_skip(a@, b@, i as int);
                assert(a@.skip(i as int)[0] == ca);
                assert(b@.skip(i as int)[0] == cb);
            }
            return (ca as u32) < (cb as u32);
        }
        i = i + 1;
    }
    proof {
        lemma_text_before_skip(a@, b@, i as int);
    }
    i == la && i < lb
}

/// An optional name by its text.
pub open spec fn name_view(n: Option<String>) -> Option<Seq<char>> {
    match n {
        Some(s) => Some(s@),
        None => None,
    }
}

/// The order actor zones sort in: level, first row and column, last row
/// and column, kind, count. The switch takes no part.
pub open spec fn zone_before(a: ActorSpawnZoneDef, b: ActorSpawnZoneDef) -> bool {
    lex(
        a.level as int,
        b.level as int,
        lex(
            a.rows[0] as int,
            b.rows[0] as int,
            lex(
                a.cols[0] as int,
                b.cols[0] as int,
                lex(
                    a.rows[1] as int,
                    b.rows[1] as int,
                    lex(
                        a.cols[1] as int,
                        b.cols[1] as int,
                        text_before(a.kind@, b.kind@) || (a.kind@ == b.kind@ && a.count < b.count),
                    ),
                ),
            ),
        ),
    )
}

/// Two zones say the same thing.
pub open spec fn zone_same(a: ActorSpawnZoneDef, b: ActorSpawnZoneDef) -> bool {
    &&& a.level == b.level
    &&& a.cols == b.cols
    &&& a.rows == b.rows
    &&& a.kind@ == b.kind@
    &&& a.count == b.count
    &&& name_view(a.switch) == name_view(b.switch)
    &&& a.switch_inverted == b.switch_inverted
}

/// `x` placed into `sorted` after every zone it does not come before, as a
/// stable sort places it.
pub open spec fn stable_insert(sorted: Seq<ActorSpawnZoneDef>, x: ActorSpawnZoneDef) -> Seq<ActorSpawnZoneDef>
    decreases sorted.len(),
{
    if sorted.len() == 0 {
        seq![x]
    } else if zone_before(x, sorted.last()) {
        stable_insert(sorted.drop_last(), x).push(sorted.last())
    } else {
        sorted.push(x)
    }
}

/// The zones stably sorted by `zone_before`.
pub open spec fn stable_sort(s: Seq<ActorSpawnZoneDef>) -> Seq<ActorSpawnZoneDef>
    decreases s.len(),
{
    if s.len() == 0 {
        s
    } else {
        stable_insert(stable_sort(s.drop_last()), s.last())
    }
}

/// The zones with each run of zones that say the same thing cut to its
/// first.
pub open spec fn dedup_zones(s: Seq<ActorSpawnZoneDef>) -> Seq<ActorSpawnZoneDef>
    decreases s.len(),
{
    if s.len() == 0 {
        s
    } else if s.len() >= 2 && zone_same(s[s.len() - 1], s[s.len() - 2]) {
        dedup_zones(s.drop_last())
    } else {
        dedup_zones(s.drop_last()).push(s.last())
    }
}

proof fn lemma_stable_insert_at(s: Seq<ActorSpawnZoneDef>, x: ActorSpawnZoneDef, j: int)
    requires
        0 <= j <= s.len(),
        forall|t: int| j <= t < s.len() ==> zone_before(x, #[trigger] s[t]),
        j == 0 || !zone_before(x, s[j - 1]),
    ensures
        stable_insert(s, x) == s.insert(j, x),
    decreases s.len(),
{
    if s.len() == 0 {
        assert(s.insert(0, x) =~= seq![x]);
    } else if j < s.len() {
        assert(zone_before(x, s[s.len() - 1]));
        lemma_stable_insert_at(s.drop_last(), x, j);
        assert(s.drop_last().insert(j, x).push(s.last()) =~= s.insert(j, x));
    } else {
        assert(s.insert(j, x) =~= s.push(x));
    }
}

fn copy_name(n: &Option<String>) -> (c: Option<String>)
    ensures
        c == *n,
{
    match n {
        Some(s) => Some(s.clone()),
        None => None,
    }
}

fn copy_zone(z: &ActorSpawnZoneDef) -> (c: ActorSpawnZoneDef)
    ensures
        c == *z,
{
    ActorSpawnZoneDef {
        level: z.level,
        cols: z.cols,
        rows: z.rows,
        kind: z.kind.clone(),
        count: z.count,
        switch: copy_name(&z.switch),
        switch_inverted: z.switch_inverted,
    }
}

fn zone_precedes(a: &ActorSpawnZoneDef, b: &ActorSpawnZoneDef) -> (r: bool)
    ensures
        r == zone_before(*a, *b),
{
    let text = text_precedes(a.kind.as_str(), b.kind.as_str()) || (a.kind == b.kind && a.count < b.count);
    let c1 = lex_step(a.cols[1] as i64, b.cols[1] as i64, text);
    let r1 = lex_step(a.rows[1] as i64, b.rows[1] as i64, c1);
    let c0 = lex_step(a.cols[0] as i64, b.cols[0] as i64, r1);
    let r0 = lex_step(a.rows[0] as i64, b.rows[0] as i64, c0);
    lex_step(a.level as i64, b.level as i64, r0)
}

fn zones_same(a: &ActorSpawnZoneDef, b: &ActorSpawnZoneDef) -> (r: bool)
    ensures
        r == zone_same(*a, *b),
{
    let switches = match (&a.switch, &b.switch) {
        (Some(x), Some(y)) => *x == *y,
        (None, None) => true,
        _ => false,
    };
    let cols = a.cols[0] == b.cols[0] && a.cols[1] == b.cols[1];
    let rows = a.rows[0] == b.rows[0] && a.rows[1] == b.rows[1];
    proof {
        if cols {
            assert(a.cols =~= b.cols);
        }
        if rows {
            assert(a.rows =~= b.rows);
        }
    }
    a.level == b.level && cols && rows && a.kind == b.kind && a.count == b.count && switches && a.switch_inverted
        == b.switch_inverted
}

proof fn lemma_text_before_asym(a: Seq<char>, b: Seq<char>)
    ensures
        !text_before(a, a),
        text_before(a, b) ==> !text_before(b, a),
    decreases a.len(),
{
    if a.len() > 0 && b.len() > 0 {
        lemma_text_before_asym(a.drop_first(), b.drop_first());
        lemma_text_before_asym(a.drop_first(), a.drop_first());
    } else if a.len() > 0 {
        lemma_text_before_asym(a.drop_first(), a.drop_first());
    }
}

/// No zone comes before itself, and of two zones at most one comes first.
pub proof fn lemma_zone_before_asym(a: ActorSpawnZoneDef, b: ActorSpawnZoneDef)
    ensures
        !zone_before(a, a),
        zone_before(a, b) ==> !zone_before(b, a),
{
    lemma_text_before_asym(a.kind@, b.kind@);
}

/// No zone comes before the one after it.
pub open spec fn zones_settled(s: Seq<ActorSpawnZoneDef>) -> bool {
    forall|i: int| 1 <= i < s.len() ==> !zone_before(#[trigger] s[i], s[i - 1])
}

/// No zone says the same thing as the one before it.
pub open spec fn zones_distinct_runs(s: Seq<ActorSpawnZoneDef>) -> bool {
    forall|i: int| 1 <= i < s.len() ==> !zone_same(#[trigger] s[i], s[i - 1])
}

proof fn lemma_stable_insert_settled(s: Seq<ActorSpawnZoneDef>, x: ActorSpawnZoneDef)
    requires
        zones_settled(s),
    ensures
        stable_insert(s, x).len() == s.len() + 1,
        zones_settled(stable_insert(s, x)),
        stable_insert(s, x).last() == x || (s.len() > 0 && stable_insert(s, x).last() == s.last()),
    decreases s.len(),
{
    let r = stable_insert(s, x);
    if s.len() == 0 {
    } else if zone_before(x, s.last()) {
        let d = s.drop_last();
        assert(zones_settled(d)) by {
            assert forall|i: int| 1 <= i < d.len() implies !zone_before(#[trigger] d[i], d[i - 1]) by {
                assert(s[i] == d[i] && s[i - 1] == d[i - 1]);
            }
        }
        lemma_stable_insert_settled(d, x);
        let q = stable_insert(d, x);
        assert(r == q.push(s.last()));
        lemma_zone_before_asym(x, s.last());
        if q.last() != x {
            assert(q.last() == d.last());
            assert(s[s.len() - 1] == s.last() && s[s.len() - 2] == d.last());
        }
        assert forall|i: int| 1 <= i < r.len() implies !zone_before(#[trigger] r[i], r[i - 1]) by {
            if i < r.len() - 1 {
                assert(r[i] == q[i] && r[i - 1] == q[i - 1]);
            } else {
                assert(r[i] == s.last() && r[i - 1] == q.last());
            }
        }
    } else {
        assert(r == s.push(x));
        assert forall|i: int| 1 <= i < r.len() implies !zone_before(#[trigger] r[i], r[i - 1]) by {
            if i < r.len() - 1 {
                assert(r[i] == s[i] && r[i - 1] == s[i - 1]);
            }
        }
    }
}

pub proof fn lemma_stable_sort_settled(s: Seq<ActorSpawnZoneDef>)
    ensures
        stable_sort(s).len() == s.len(),
        zones_settled(stable_sort(s)),
    decreases s.len(),
{
    if s.len() > 0 {
        lemma_stable_sort_settled(s.drop_last());
        lemma_stable_insert_settled(stable_sort(s.drop_last()), s.last());
    }
}

proof fn lemma_stable_sort_of_settled(t: Seq<ActorSpawnZoneDef>)
    requires
        zones_settled(t),
    ensures
        stable_sort(t) == t,
    decreases t.len(),
{
    if t.len() > 0 {
        let d = t.drop_last();
        assert(zones_settled(d)) by {
            assert forall|i: int| 1 <= i < d.len() implies !zone_before(#[trigger] d[i], d[i - 1]) by {
                assert(t[i] == d[i] && t[i - 1] == d[i - 1]);
            }
        }
        lemma_stable_sort_of_settled(d);
        if d.len() == 0 {
            assert(seq![t.last()] =~= t);
        } else {
            assert(t[t.len() - 1] == t.last() && t[t.len() - 2] == d.last());
            assert(d.push(t.last()) =~= t);
        }
    }
}

pub proof fn lemma_dedup_zones_shape(s: Seq<ActorSpawnZoneDef>)
    requires
        zones_settled(s),
    ensures
        s.len() > 0 ==> dedup_zones(s).len() > 0 && zone_same(dedup_zones(s).last(), s.last()),
        zones_settled(dedup_zones(s)),
        zones_distinct_runs(dedup_zones(s)),
    decreases s.len(),
{
    if s.len() > 0 {
        let d = s.drop_last();
        assert(zones_settled(d)) by {
            assert forall|i: int| 1 <= i < d.len() implies !zone_before(#[trigger] d[i], d[i - 1]) by {
                assert(s[i] == d[i] && s[i - 1] == d[i - 1]);
            }
        }
        lemma_dedup_zones_shape(d);
        let dd = dedup_zones(d);
        let r = dedup_zones(s);
        if s.len() >= 2 && zone_same(s[s.len() - 1], s[s.len() - 2]) {
            assert(r == dd);
            assert(d.last() == s[s.len() - 2]);
        } else {
            assert(r == dd.push(s.last()));
            if s.len() >= 2 {
                let p = s[s.len() - 2];
                assert(d.last() == p);
                assert(!zone_before(s[s.len() - 1], s[s.len() - 2]));
                assert(zone_same(dd.last(), p));
                assert(!zone_before(s.last(), dd.last()));
                assert(!zone_same(s.last(), dd.last()));
            }
            assert forall|i: int| 1 <= i < r.len() implies !zone_before(#[trigger] r[i], r[i - 1]) && !zone_same(
                r[i],
                r[i - 1],
            ) by {
                if i < r.len() - 1 {
                    assert(r[i] == dd[i] && r[i - 1] == dd[i - 1]);
                } else {
                    assert(r[i] == s.last() && r[i - 1] == dd.last());
                }
            }
        }
    }
}

proof fn lemma_dedup_zones_of_distinct(t: Seq<ActorSpawnZoneDef>)
    requires
        zones_distinct_runs(t),
    ensures
        dedup_zones(t) == t,
    decreases t.len(),
{
    if t.len() > 0 {
        let d = t.drop_last();
        assert(zones_distinct_runs(d)) by {
            assert forall|i: int| 1 <= i < d.len() implies !zone_same(#[trigger] d[i], d[i - 1]) by {
                assert(t[i] == d[i] && t[i - 1] == d[i - 1]);
            }
        }
        lemma_dedup_zones_of_distinct(d);
        if t.len() >= 2 {
            assert(!zone_same(t[t.len() - 1], t[t.len() - 2]));
        }
        assert(d.push(t.last()) =~= t);
    }
}

/// Actor zones in canonical form are left as they are by sorting and
/// cutting repeats again.
pub proof fn lemma_canonical_zones_fixed(s: Seq<ActorSpawnZoneDef>)
    ensures
        dedup_zones(stable_sort(dedup_zones(stable_sort(s)))) == dedup_zones(stable_sort(s)),
{
    lemma_stable_sort_settled(s);
    let c = dedup_zones(stable_sort(s));
    lemma_dedup_zones_shape(stable_sort(s));
    lemma_stable_sort_of_settled(c);
    lemma_dedup_zones_of_distinct(c);
}

/// A wall with its smaller end first keeps that form when normalized again.
pub proof fn lemma_normalized_wall_def_fixed(w: WallDef)
    ensures
        normalized_wall_def(normalized_wall_def(w)) == normalized_wall_def(w),
{
}

/// The actor zones stably sorted by `zone_before`, each run of zones that
/// say the same thing cut to its first.
pub fn canonical_zones(zones: &Vec<ActorSpawnZoneDef>) -> (out: Vec<ActorSpawnZoneDef>)
    ensures
        out@ == dedup_zones(stable_sort(zones@)),
{
    let mut sorted: Vec<ActorSpawnZoneDef> = Vec::new();
    let mut i: usize = 0;
    while i < zones.len()
        invariant
            i <= zones@.len(),
            sorted@ == stable_sort(zones@.take(i as int)),
        decreases zones@.len() - i,
    {
        let x = copy_zone(&zones[i]);
        let mut j: usize = sorted.len();
        while j > 0
            invariant
                j <= sorted@.len(),
                forall|t: int| j <= t < sorted@.len() ==> zone_before(x, #[trigger] sorted@[t]),
            ensures
                j <= sorted@.len(),
                forall|t: int| j <= t < sorted@.len() ==> zone_before(x, #[trigger] sorted@[t]),
                j == 0 || !zone_before(x, sorted@[j - 1]),
            decreases j,
        {
            if !zone_precedes(&x, &sorted[j - 1]) {
                break;
            }
            j = j - 1;
        }
        proof {
            lemma_stable_insert_at(sorted@, x, j as int);
            let next = zones@.take(i as int + 1);
            assert(next.drop_last() =~= zones@.take(i as int));
            assert(next.last() == zones@[i as int]);
        }
        sorted.insert(j, x);
        i = i + 1;
    }
    proof {
        assert(zones@.take(zones@.len() as int) =~= zones@);
    }
    let mut out: Vec<ActorSpawnZoneDef> = Vec::new();
    let mut k: usize = 0;
    while k < sorted.len()
        invariant
            k <= sorted@.len(),
            out@ == dedup_zones(sorted@.take(k as int)),
        decreases sorted@.len() - k,
    {
        let keep = k == 0 || !zones_same(&sorted[k], &sorted[k - 1]);
        proof {
            let next = sorted@.take(k as int + 1);
            assert(next.drop_last() =~= sorted@.take(k as int));
            assert(next.last() == sorted@[k as int]);
            if k > 0 {
                assert(next[next.len() - 2] == sorted@[k - 1]);
            }
        }
        if keep {
            out.push(copy_zone(&sorted[k]));
        }
        k = k + 1;
    }
    proof {
        assert(sorted@.take(sorted@.len() as int) =~= sorted@);
    }
    out
}

/// A wall with its smaller end first.
pub open spec fn normalized_wall_def(w: WallDef) -> WallDef {
    let n = normalized([w.c0, w.r0, w.c1, w.r1]);
    WallDef { c0: n[0], r0: n[1], c1: n[2], r1: n[3] }
}

fn normalize_walls(walls: &Vec<WallDef>) -> (out: Vec<WallDef>)
    ensures
        out@ == walls@.map_values(|w: WallDef| normalized_wall_def(w)),
{
    let mut out: Vec<WallDef> = Vec::new();
    let mut i: usize = 0;
    while i < walls.len()
        invariant
            i <= walls@.len(),
            out@ == walls@.take(i as int).map_values(|w: WallDef| normalized_wall_def(w)),
        decreases walls@.len() - i,
    {
        let w = walls[i];
        let n = crate::validation::normalized_wall([w.c0, w.r0, w.c1, w.r1]);
        out.push(WallDef { c0: n[0], r0: n[1], c1: n[2], r1: n[3] });
        proof {
            assert(walls@.take(i as int + 1).map_values(|w: WallDef| normalized_wall_def(w)) =~= walls@.take(
                i as int,
            ).map_values(|w: WallDef| normalized_wall_def(w)).push(normalized_wall_def(walls@[i as int])));
        }
        i = i + 1;
    }
    proof {
        assert(walls@.take(walls@.len() as int) =~= walls@);
    }
    out
}

/// The level's cell and wall lists in canonical form; the rest as it was.
pub open spec fn level_canonical(before: crate::schema::LevelDef, after: crate::schema::LevelDef) -> bool {
    &&& ascending(after.floors@) && same_values(after.floors@, before.floors@)
    &&& ascending(after.inaccessible_floors@) && same_values(after.inaccessible_floors@, before.inaccessible_floors@)
    &&& ascending(after.walls@) && same_values(
        after.walls@,
        before.walls@.map_values(|w: WallDef| normalized_wall_def(w)),
    )
    &&& after.name == before.name
    &&& after.terrain == before.terrain
    &&& after.barriers == before.barriers
    &&& after.light_bridges == before.light_bridges
    &&& after.lights == before.lights
}

/// `after` is `before` in canonical form: actor zones stably sorted with
/// repeats cut, player zones, floors, walls (smaller end first) and ramps
/// ascending and each once; everything else as it was.
pub open spec fn canonical_of(before: MapDef, after: MapDef) -> bool {
    &&& after.grid_cols == before.grid_cols
    &&& after.grid_rows == before.grid_rows
    &&& after.actor_spawn_zones@ == dedup_zones(stable_sort(before.actor_spawn_zones@))
    &&& ascending(after.player_spawn_zones@)
    &&& same_values(after.player_spawn_zones@, before.player_spawn_zones@)
    &&& after.levels@.len() == before.levels@.len()
    &&& forall|l: int| 0 <= l < before.levels@.len() ==> level_canonical(before.levels@[l], #[trigger] after.levels@[l])
    &&& ascending(after.ramps@)
    &&& same_values(after.ramps@, before.ramps@)
    &&& after.items == before.items
    &&& after.pressure_plates == before.pressure_plates
    &&& after.nested_maps == before.nested_maps
}

/// Put a map in canonical form (see `canonical_of`).
pub fn canonicalize(m: &mut MapDef)
    ensures
        canonical_of(*old(m), *final(m)),
{
    m.actor_spawn_zones = canonical_zones(&m.actor_spawn_zones);
    m.player_spawn_zones = canonical_list(&m.player_spawn_zones);
    m.ramps = canonical_list(&m.ramps);
    let ghost levels0 = m.levels@;
    let ghost m1 = *m;
    let count = m.levels.len();
    let mut rest: Vec<crate::schema::LevelDef> = Vec::new();
    std::mem::swap(&mut rest, &mut m.levels);
    let mut l: usize = 0;
    while rest.len() > 0
        invariant
            l <= levels0.len(),
            count == levels0.len(),
            rest@ == levels0.skip(l as int),
            m.levels@.len() == l,
            forall|x: int| 0 <= x < l ==> level_canonical(levels0[x], #[trigger] m.levels@[x]),
            m.grid_cols == m1.grid_cols,
            m.grid_rows == m1.grid_rows,
            m.actor_spawn_zones == m1.actor_spawn_zones,
            m.player_spawn_zones == m1.player_spawn_zones,
            m.ramps == m1.ramps,
            m.items == m1.items,
            m.pressure_plates == m1.pressure_plates,
            m.nested_maps == m1.nested_maps,
        decreases rest@.len(),
    {
        let level = rest.remove(0);
        proof {
            assert(levels0.skip(l as int).len() > 0);
            assert(l < levels0.len());
            assert(level == levels0[l as int]);
            assert(rest@ =~= levels0.skip(l as int + 1));
        }
        let walls = normalize_walls(&level.walls);
        let floors = canonical_list(&level.floors);
        let inaccessible_floors = canonical_list(&level.inaccessible_floors);
        let walls = canonical_list(&walls);
        let crate::schema::LevelDef { name, terrain, barriers, light_bridges, lights, .. } = level;
        let canonical = crate::schema::LevelDef {
            name,
            floors,
            inaccessible_floors,
            terrain,
            walls,
            barriers,
            light_bridges,
            lights,
        };
        m.levels.push(canonical);
        l = l + 1;
    }
    proof {
        assert(levels0.skip(l as int).len() == 0);
    }
}

} // verus!
