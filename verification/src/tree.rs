//! A map and the maps it nests, compiled together: the root rides the world
//! carrier and every nesting gets the next carrier, depth first, so a map's
//! carrier comes before those of the maps it nests.
use vstd::prelude::*;

use crate::compile::{
    CompileScope, CompiledMap, barriers_ok, bridges_ok, compilable, compile_failed, compile_map_layout, items_ok,
    layout_compiled, layout_ok, map_compiled, plates_ok, switch_target, target_switch, zones_of, zones_ok,
};
use crate::error::{MapError, SwitchUse};
use crate::ids::{CarrierId, SwitchId};
use crate::schema::{MapDef, NestedMapDef};
use crate::tables::{lemma_name_index, name_index};

verus! {

/// The most carriers a tree can have: one per carrier id.
pub const MAX_CARRIERS: usize = 0x1_0000;

/// Node 0 is the root; node `j + 1` is the nested map `nested[j]`.
pub open spec fn map_at(root: MapDef, nested: Seq<MapDef>, node: int) -> MapDef {
    if node == 0 {
        root
    } else {
        nested[node - 1]
    }
}

/// One carrier of the tree: the node whose map it carries, the position in
/// the carrier order of the carrier it rides on, and which of that map's
/// nestings placed it. The root's parent and entry are 0 and mean nothing.
#[derive(Clone, Copy, Debug, PartialEq, Eq, Structural)]
pub struct TreeNode {
    pub map: usize,
    pub parent: usize,
    pub entry: usize,
}

/// The carriers of the tree under `node`, depth first, the first at
/// position `pos`: the node itself, then for each map it nests, in order,
/// that map's own tree. A nested map is found by the first of `names` that
/// is its name. `None` when some name has no map, or the nesting runs
/// deeper than `fuel`.
pub open spec fn subtree(
    root: MapDef,
    nested: Seq<MapDef>,
    names: Seq<String>,
    node: int,
    fuel: nat,
    pos: int,
    parent: int,
    entry: int,
) -> Option<Seq<TreeNode>>
    decreases fuel, map_at(root, nested, node).nested_maps@.len() + 1,
{
    if fuel == 0 || node < 0 || node > nested.len() {
        None
    } else {
        match entry_trees(root, nested, names, node, map_at(root, nested, node).nested_maps@.len() as int, fuel, pos) {
            Some(s) => Some(seq![TreeNode { map: node as usize, parent: parent as usize, entry: entry as usize }] + s),
            None => None,
        }
    }
}

/// The trees of the first `k` maps that `node`, at position `pos`, nests,
/// one after another.
pub open spec fn entry_trees(
    root: MapDef,
    nested: Seq<MapDef>,
    names: Seq<String>,
    node: int,
    k: int,
    fuel: nat,
    pos: int,
) -> Option<Seq<TreeNode>>
    decreases fuel, k,
{
    if k <= 0 {
        Some(Seq::empty())
    } else if fuel == 0 {
        None
    } else {
        match entry_trees(root, nested, names, node, k - 1, fuel, pos) {
            None => None,
            Some(a) => match name_index(names, map_at(root, nested, node).nested_maps@[k - 1].map@) {
                None => None,
                Some(j) => match subtree(root, nested, names, j + 1, (fuel - 1) as nat, pos + 1 + a.len(), pos, k - 1) {
                    None => None,
                    Some(b) => Some(a + b),
                },
            },
        }
    }
}

/// The carrier order of the whole tree, deep enough for any tree whose
/// maps nest no map twice on one chain.
pub open spec fn tree_nodes(root: MapDef, nested: Seq<MapDef>, names: Seq<String>) -> Option<Seq<TreeNode>> {
    subtree(root, nested, names, 0, (nested.len() + 1) as nat, 0, 0, 0)
}

/// Carrier `i` was placed by a nesting of an earlier carrier's map.
pub open spec fn placed_by_parent(root: MapDef, nested: Seq<MapDef>, o: Seq<TreeNode>, i: int) -> bool {
    &&& (o[i].parent as int) < i
    &&& (o[i].entry as int) < map_at(root, nested, o[o[i].parent as int].map as int).nested_maps@.len()
}

/// The order starts at the root, names only maps there are, and every later
/// carrier rides on an earlier one, placed by one of its map's nestings.
pub open spec fn tree_shaped(root: MapDef, nested: Seq<MapDef>, o: Seq<TreeNode>) -> bool {
    &&& o.len() >= 1
    &&& o[0].map == 0
    &&& forall|i: int| 0 <= i < o.len() ==> (#[trigger] o[i]).map <= nested.len()
    &&& forall|i: int| 1 <= i < o.len() ==> #[trigger] placed_by_parent(root, nested, o, i)
}

fn find_map(names: &Vec<String>, name: &String) -> (found: Option<usize>)
    ensures
        found matches Some(j) ==> name_index(names@, name@) == Some(j as int),
        found is None ==> name_index(names@, name@) is None,
{
    let mut i: usize = 0;
    while i < names.len()
        invariant
            i <= names@.len(),
            forall|t: int| 0 <= t < i ==> names@[t]@ != name@,
        decreases names@.len() - i,
    {
        if names[i] == *name {
            proof {
                lemma_name_index(names@, name@);
            }
            return Some(i);
        }
        i = i + 1;
    }
    proof {
        lemma_name_index(names@, name@);
    }
    None
}

fn visit(
    root: &MapDef,
    nested: &Vec<MapDef>,
    names: &Vec<String>,
    node: usize,
    parent: usize,
    entry: usize,
    fuel: usize,
    out: &mut Vec<TreeNode>,
) -> (ok: bool)
    requires
        node <= nested@.len(),
        names@.len() == nested@.len(),
        nested@.len() < usize::MAX,
    ensures
        ok ==> (subtree(*root, nested@, names@, node as int, fuel as nat, old(out)@.len() as int, parent as int, entry as int)
            matches Some(s) && final(out)@ == old(out)@ + s && final(out)@.len() <= MAX_CARRIERS),
        ok ==> final(out)@[old(out)@.len() as int] == (TreeNode { map: node, parent, entry }),
        ok ==> forall|i: int| old(out)@.len() <= i < final(out)@.len() ==> (#[trigger] final(out)@[i]).map <= nested@.len(),
        ok ==> forall|i: int| old(out)@.len() < i < final(out)@.len() ==> #[trigger] placed_by_parent(*root, nested@, final(out)@, i),
        !ok ==> (subtree(*root, nested@, names@, node as int, fuel as nat, old(out)@.len() as int, parent as int, entry as int)
            matches Some(s) ==> old(out)@.len() + s.len() > MAX_CARRIERS),
    decreases fuel,
{
    if fuel == 0 || out.len() >= MAX_CARRIERS {
        return false;
    }
    let ghost start = out@;
    let pos = out.len();
    out.push(TreeNode { map: node, parent, entry });
    let m = if node == 0 {
        root
    } else {
        &nested[node - 1]
    };
    proof {
        assert(*m == map_at(*root, nested@, node as int));
    }
    let mut k: usize = 0;
    while k < m.nested_maps.len()
        invariant
            k <= m.nested_maps@.len(),
            *m == map_at(*root, nested@, node as int),
            node <= nested@.len(),
            names@.len() == nested@.len(),
            nested@.len() < usize::MAX,
            fuel > 0,
            start == old(out)@,
            pos == start.len(),
            (entry_trees(*root, nested@, names@, node as int, k as int, fuel as nat, pos as int) matches Some(a) && out@
                == start + seq![TreeNode { map: node, parent, entry }] + a && out@.len() <= MAX_CARRIERS),
            forall|i: int| pos <= i < out@.len() ==> (#[trigger] out@[i]).map <= nested@.len(),
            forall|i: int| pos < i < out@.len() ==> #[trigger] placed_by_parent(*root, nested@, out@, i),
        decreases m.nested_maps@.len() - k,
    {
        let ghost before = out@;
        let ghost a = entry_trees(*root, nested@, names@, node as int, k as int, fuel as nat, pos as int).unwrap();
        let j = match find_map(names, &m.nested_maps[k].map) {
            Some(j) => j,
            None => {
                proof {
                    lemma_entry_trees_grow(*root, nested@, names@, node as int, k as int + 1, m.nested_maps@.len() as int, fuel as nat, pos as int);
                }
                return false;
            },
        };
        proof {
            lemma_name_index(names@, m.nested_maps@[k as int].map@);
            assert(before.len() == pos + 1 + a.len());
        }
        if !visit(root, nested, names, j + 1, pos, k, fuel - 1, out) {
            proof {
                let len = m.nested_maps@.len() as int;
                lemma_entry_trees_grow(*root, nested@, names@, node as int, k as int + 1, len, fuel as nat, pos as int);
                let next = entry_trees(*root, nested@, names@, node as int, k as int + 1, fuel as nat, pos as int);
                match subtree(*root, nested@, names@, j + 1, (fuel - 1) as nat, before.len() as int, pos as int, k as int) {
                    Some(b) => {
                        assert(next == Some(a + b));
                        assert(before.len() + b.len() > MAX_CARRIERS);
                        if let Some(sv) = subtree(
                            *root,
                            nested@,
                            names@,
                            node as int,
                            fuel as nat,
                            start.len() as int,
                            parent as int,
                            entry as int,
                        ) {
                            let w = entry_trees(*root, nested@, names@, node as int, len, fuel as nat, pos as int).unwrap();
                            assert(sv == seq![TreeNode { map: node, parent, entry }] + w);
                            assert(w.len() >= a.len() + b.len());
                            assert(start.len() + sv.len() > MAX_CARRIERS);
                        }
                    },
                    None => {
                        assert(next is None);
                        assert(entry_trees(*root, nested@, names@, node as int, len, fuel as nat, pos as int) is None);
                    },
                }
            }
            return false;
        }
        proof {
            assert(out@[pos as int] == TreeNode { map: node, parent, entry });
            assert forall|i: int| pos <= i < out@.len() implies (#[trigger] out@[i]).map <= nested@.len() by {
                if i < before.len() {
                    assert(out@[i] == before[i]);
                }
            }
            assert forall|i: int| pos < i < out@.len() implies #[trigger] placed_by_parent(*root, nested@, out@, i) by {
                if i < before.len() {
                    assert(out@[i] == before[i]);
                    assert(placed_by_parent(*root, nested@, before, i));
                    assert(out@[out@[i].parent as int] == before[before[i].parent as int]);
                } else if i == before.len() {
                    assert(out@[i] == TreeNode { map: (j + 1) as usize, parent: pos, entry: k });
                    assert(out@[pos as int] == before[pos as int]);
                }
            }
            assert(out@ =~= start + seq![TreeNode { map: node, parent, entry }] + entry_trees(
                *root,
                nested@,
                names@,
                node as int,
                k + 1,
                fuel as nat,
                pos as int,
            ).unwrap());
        }
        k = k + 1;
    }
    true
}

/// Longer prefixes of a map's entries have trees at least as long, and a
/// missing one stays missing.
proof fn lemma_entry_trees_grow(
    root: MapDef,
    nested: Seq<MapDef>,
    names: Seq<String>,
    node: int,
    k: int,
    n: int,
    fuel: nat,
    pos: int,
)
    requires
        0 <= k <= n,
    ensures
        entry_trees(root, nested, names, node, n, fuel, pos) matches Some(w) ==> (entry_trees(
            root,
            nested,
            names,
            node,
            k,
            fuel,
            pos,
        ) matches Some(a) && a.len() <= w.len()),
    decreases n - k,
{
    if k < n {
        lemma_entry_trees_grow(root, nested, names, node, k + 1, n, fuel, pos);
    }
}

/// The carriers of the tree in order: the root first, then depth first.
/// `None` when a nested map has no geometry, the nesting runs deeper than
/// there are maps, or the tree needs more carriers than there are ids.
pub fn tree_order(root: &MapDef, nested: &Vec<MapDef>, names: &Vec<String>) -> (order: Option<Vec<TreeNode>>)
    requires
        names@.len() == nested@.len(),
        nested@.len() < usize::MAX,
    ensures
        order matches Some(o) ==> tree_nodes(*root, nested@, names@) == Some(o@) && o@.len() <= MAX_CARRIERS
            && tree_shaped(*root, nested@, o@),
        order is None ==> (tree_nodes(*root, nested@, names@) matches Some(s) ==> s.len() > MAX_CARRIERS),
{
    let mut out: Vec<TreeNode> = Vec::new();
    let fuel = nested.len() + 1;
    if visit(root, nested, names, 0, 0, 0, fuel, &mut out) {
        proof {
            let s = subtree(*root, nested@, names@, 0, fuel as nat, 0, 0, 0).unwrap();
            assert(out@ =~= s);
            assert(out@[0].map == 0);
        }
        Some(out)
    } else {
        None
    }
}

/// Compile `m` on `carrier` onto the end of `out`. On success exactly its
/// compiled map is appended. A failure before the actor zones leaves `out`
/// as it was; an actor zone whose switch does not resolve fails after the
/// map's grids and layout records were appended, with no zones or items.
pub fn compile_into(m: &MapDef, scope: &CompileScope, carrier: CarrierId, out: &mut Vec<CompiledMap>) -> (res: Result<
    (),
    MapError,
>)
    requires
        compilable(*m),
        scope.wf(),
    ensures
        res is Ok ==> final(out)@.len() == old(out)@.len() + 1 && final(out)@.take(old(out)@.len() as int) == old(out)@
            && map_compiled(*m, *scope, carrier, final(out)@.last()),
        res matches Err(e) ==> compile_failed(*m, *scope, e) && if layout_ok(*m, *scope) {
            &&& final(out)@.len() == old(out)@.len() + 1
            &&& final(out)@.take(old(out)@.len() as int) == old(out)@
            &&& layout_compiled(*m, *scope, carrier, final(out)@.last())
        } else {
            final(out)@ == old(out)@
        },
{
    let (c, items) = match compile_map_layout(m, scope, carrier) {
        Ok(parts) => parts,
        Err(e) => {
            return Err(e);
        },
    };
    match zones_of(m, scope, carrier) {
        Ok((actors, players)) => {
            out.push(CompiledMap { placed_items: items, actor_spawn_zones: actors, player_spawn_zones: players, ..c });
            proof {
                assert(out@.take(old(out)@.len() as int) =~= old(out)@);
            }
            Ok(())
        },
        Err(e) => {
            out.push(c);
            proof {
                assert(out@.take(old(out)@.len() as int) =~= old(out)@);
            }
            Err(e)
        },
    }
}

/// Every name of `m` resolves.
pub open spec fn compiles(m: MapDef, scope: CompileScope) -> bool {
    plates_ok(m, scope) && barriers_ok(m, scope) && bridges_ok(m, scope) && items_ok(m, scope) && zones_ok(m, scope)
}

/// A nested map's carrier in grid space: the carrier it rides on, the lower
/// storey of its motion in that carrier's frame and how many storeys the
/// motion spans (as level tags), its timing in ticks (a leg takes at least
/// one), and the switch that runs it.
#[derive(Clone, Copy, Debug, PartialEq, Eq, Structural)]
pub struct CarrierRecord {
    pub parent: CarrierId,
    pub level: u8,
    pub levels: u8,
    pub travel_ticks: u32,
    pub pause_ticks: u32,
    pub phase_ticks: u32,
    pub switch: Option<SwitchId>,
    pub switch_inverted: bool,
}

/// A storey number as a level tag: itself, or the last tag a `u8` names.
pub open spec fn motion_tag(x: u32) -> u8 {
    if x <= 255 {
        x as u8
    } else {
        255
    }
}

/// The storey a nesting moves to: `to_level`, or where it starts.
pub open spec fn to_level_of(e: NestedMapDef) -> u32 {
    match e.to_level {
        Some(t) => t,
        None => e.level,
    }
}

/// The lower storey of a nesting's motion, as a tag.
pub open spec fn motion_low(e: NestedMapDef) -> u8 {
    let a = motion_tag(e.level);
    let b = motion_tag(to_level_of(e));
    if a <= b {
        a
    } else {
        b
    }
}

/// How many storeys a nesting's motion spans, as tags.
pub open spec fn motion_span(e: NestedMapDef) -> u8 {
    let a = motion_tag(e.level);
    let b = motion_tag(to_level_of(e));
    if a <= b {
        (b - a) as u8
    } else {
        (a - b) as u8
    }
}

/// The nesting that placed carrier `k`.
pub open spec fn entry_of(root: MapDef, nested: Seq<MapDef>, o: Seq<TreeNode>, k: int) -> NestedMapDef {
    map_at(root, nested, o[o[k].parent as int].map as int).nested_maps@[o[k].entry as int]
}

/// The record of carrier `k`, its switch resolved.
pub open spec fn carrier_record(root: MapDef, nested: Seq<MapDef>, switches: Seq<String>, o: Seq<TreeNode>, k: int) -> CarrierRecord {
    let e = entry_of(root, nested, o, k);
    CarrierRecord {
        parent: CarrierId(o[k].parent as u16),
        level: motion_low(e),
        levels: motion_span(e),
        travel_ticks: if e.travel_ticks == 0 {
            1
        } else {
            e.travel_ticks
        },
        pause_ticks: e.pause_ticks,
        phase_ticks: e.phase_ticks,
        switch: switch_target(switches, e.switch).unwrap(),
        switch_inverted: e.switch_inverted,
    }
}

/// The world storey of carrier `k`'s lowest point: its parent's, raised by
/// where its motion starts low in the parent's frame; the root's is 0.
pub open spec fn base_level(root: MapDef, nested: Seq<MapDef>, o: Seq<TreeNode>, k: int) -> int
    decreases k,
{
    if k <= 0 || o[k].parent as int >= k {
        0
    } else {
        base_level(root, nested, o, o[k].parent as int) + motion_low(entry_of(root, nested, o, k))
    }
}

/// How many storeys carrier `k`'s map can reach, counted from the world's
/// first: its base, its own storeys, and the storeys its motion climbs.
pub open spec fn reach(root: MapDef, nested: Seq<MapDef>, o: Seq<TreeNode>, k: int) -> int {
    base_level(root, nested, o, k) + map_at(root, nested, o[k].map as int).levels@.len() + motion_span(
        entry_of(root, nested, o, k),
    )
}

/// Carrier `k` can be placed: its switch resolves and its map stays within
/// the storeys a level tag names. The root always can.
pub open spec fn carrier_fine(root: MapDef, nested: Seq<MapDef>, switches: Seq<String>, o: Seq<TreeNode>, k: int) -> bool {
    k == 0 || (switch_target(switches, entry_of(root, nested, o, k).switch) is Some && reach(root, nested, o, k) <= 256)
}

/// `e` is why carrier `k` cannot be placed: its switch does not resolve, or
/// else its map reaches past the last storey.
pub open spec fn carrier_error(root: MapDef, nested: Seq<MapDef>, switches: Seq<String>, o: Seq<TreeNode>, k: int, e: MapError) -> bool {
    let en = entry_of(root, nested, o, k);
    if switch_target(switches, en.switch) is None {
        e == (MapError::UnknownSwitch { place: SwitchUse::NestedMap, index: o[k].entry, name: en.switch.unwrap() })
    } else {
        reach(root, nested, o, k) > 256 && e == (MapError::NestedMapPastLastStorey { map: en.map })
    }
}

/// Everything up to and including carrier `k` and its map is fine.
pub open spec fn tree_fine_at(root: MapDef, nested: Seq<MapDef>, scope: CompileScope, o: Seq<TreeNode>, k: int) -> bool {
    carrier_fine(root, nested, scope.switch_table.ids@, o, k) && compiles(map_at(root, nested, o[k].map as int), scope)
}

fn copy_name(n: &Option<String>) -> (c: Option<String>)
    ensures
        c == *n,
{
    match n {
        Some(s) => Some(s.clone()),
        None => None,
    }
}

fn tag(x: u32) -> (t: u8)
    ensures
        t == motion_tag(x),
{
    if x <= 255 {
        x as u8
    } else {
        255
    }
}

/// Compile a tree in carrier order: the map of the `k`-th node of `order`
/// on carrier `k`, and for every carrier after the root its record, placed
/// just before its map compiles. The error is the first met in that order:
/// a carrier's switch, a carrier reaching past the last storey, or a name
/// of a map that does not resolve.
pub fn compile_tree(root: &MapDef, nested: &Vec<MapDef>, order: &Vec<TreeNode>, scope: &CompileScope) -> (res: Result<
    (Vec<CompiledMap>, Vec<CarrierRecord>),
    MapError,
>)
    requires
        scope.wf(),
        order@.len() <= MAX_CARRIERS,
        tree_shaped(*root, nested@, order@),
        forall|k: int| 0 <= k < order@.len() ==> compilable(map_at(*root, nested@, #[trigger] order@[k].map as int)),
    ensures
        res is Ok <==> forall|k: int| 0 <= k < order@.len() ==> #[trigger] tree_fine_at(*root, nested@, *scope, order@, k),
        res matches Ok((maps, carriers)) ==> {
            &&& maps@.len() == order@.len()
            &&& carriers@.len() + 1 == order@.len()
            &&& forall|k: int|
                0 <= k < order@.len() ==> map_compiled(
                    map_at(*root, nested@, order@[k].map as int),
                    *scope,
                    CarrierId(k as u16),
                    #[trigger] maps@[k],
                )
            &&& forall|k: int|
                1 <= k < order@.len() ==> #[trigger] carriers@[k - 1] == carrier_record(
                    *root,
                    nested@,
                    scope.switch_table.ids@,
                    order@,
                    k,
                )
        },
        res matches Err(e) ==> exists|k: int|
            0 <= k < order@.len() && (forall|j: int| 0 <= j < k ==> #[trigger] tree_fine_at(*root, nested@, *scope, order@, j))
                && if carrier_fine(*root, nested@, scope.switch_table.ids@, order@, k) {
                compile_failed(map_at(*root, nested@, order@[k].map as int), *scope, e)
            } else {
                carrier_error(*root, nested@, scope.switch_table.ids@, order@, k, e)
            },
{
    let ghost o = order@;
    let ghost sw = scope.switch_table.ids@;
    let mut out: Vec<CompiledMap> = Vec::new();
    let mut carriers: Vec<CarrierRecord> = Vec::new();
    let mut bases: Vec<u32> = Vec::new();
    let mut k: usize = 0;
    while k < order.len()
        invariant
            k <= o.len(),
            o == order@,
            sw == scope.switch_table.ids@,
            scope.wf(),
            o.len() <= MAX_CARRIERS,
            tree_shaped(*root, nested@, o),
            forall|t: int| 0 <= t < o.len() ==> compilable(map_at(*root, nested@, #[trigger] o[t].map as int)),
            out@.len() == k,
            bases@.len() == k,
            k == 0 ==> carriers@.len() == 0,
            k > 0 ==> carriers@.len() + 1 == k,
            forall|j: int| 0 <= j < k ==> #[trigger] tree_fine_at(*root, nested@, *scope, o, j),
            forall|j: int| 0 <= j < k ==> bases@[j] == base_level(*root, nested@, o, j) && #[trigger] bases@[j] <= 256,
            forall|j: int|
                0 <= j < k ==> map_compiled(
                    map_at(*root, nested@, o[j].map as int),
                    *scope,
                    CarrierId(j as u16),
                    #[trigger] out@[j],
                ),
            forall|j: int| 1 <= j < k ==> #[trigger] carriers@[j - 1] == carrier_record(*root, nested@, sw, o, j),
        decreases o.len() - k,
    {
        let node = order[k].map;
        let m = if node == 0 {
            root
        } else {
            &nested[node - 1]
        };
        proof {
            assert(o[k as int].map <= nested@.len());
            assert(*m == map_at(*root, nested@, o[k as int].map as int));
        }
        if k == 0 {
            bases.push(0);
            proof {
                assert(carrier_fine(*root, nested@, sw, o, 0));
            }
        } else {
            proof {
                assert(placed_by_parent(*root, nested@, o, k as int));
            }
            let p = order[k].parent;
            let pnode = order[p].map;
            let pm = if pnode == 0 {
                root
            } else {
                &nested[pnode - 1]
            };
            proof {
                assert(o[p as int].map <= nested@.len());
                assert(*pm == map_at(*root, nested@, o[p as int].map as int));
            }
            let e = &pm.nested_maps[order[k].entry];
            proof {
                assert(*e == entry_of(*root, nested@, o, k as int));
            }
            let switch = match target_switch(scope, &e.switch) {
                Some(t) => t,
                None => {
                    proof {
                        assert(!carrier_fine(*root, nested@, sw, o, k as int));
                        assert(!tree_fine_at(*root, nested@, *scope, o, k as int));
                    }
                    return Err(
                        MapError::UnknownSwitch {
                            place: SwitchUse::NestedMap,
                            index: order[k].entry,
                            name: match &e.switch {
                                Some(n) => n.clone(),
                                None => String::new(),
                            },
                        },
                    );
                },
            };
            let a = tag(e.level);
            let b = tag(
                match e.to_level {
                    Some(t) => t,
                    None => e.level,
                },
            );
            let low = if a <= b {
                a
            } else {
                b
            };
            let span = if a <= b {
                b - a
            } else {
                a - b
            };
            let base = bases[p] + low as u32;
            proof {
                assert(bases@[p as int] == base_level(*root, nested@, o, p as int));
                assert(base == base_level(*root, nested@, o, k as int));
            }
            let reach_now = base as u64 + m.levels.len() as u64 + span as u64;
            if reach_now > 256 {
                proof {
                    assert(reach_now == reach(*root, nested@, o, k as int));
                    assert(!carrier_fine(*root, nested@, sw, o, k as int));
                    assert(!tree_fine_at(*root, nested@, *scope, o, k as int));
                }
                return Err(MapError::NestedMapPastLastStorey { map: e.map.clone() });
            }
            let record = CarrierRecord {
                parent: CarrierId(p as u16),
                level: low,
                levels: span,
                travel_ticks: if e.travel_ticks == 0 {
                    1
                } else {
                    e.travel_ticks
                },
                pause_ticks: e.pause_ticks,
                phase_ticks: e.phase_ticks,
                switch,
                switch_inverted: e.switch_inverted,
            };
            proof {
                assert(record == carrier_record(*root, nested@, sw, o, k as int));
                assert(carrier_fine(*root, nested@, sw, o, k as int));
            }
            carriers.push(record);
            bases.push(base);
        }
        let ghost before = out@;
        let ghost cars = carriers@;
        match compile_into(m, scope, CarrierId(k as u16), &mut out) {
            Ok(()) => {
                proof {
                    assert forall|j: int| 0 <= j < k implies #[trigger] out@[j] == before[j] by {
                        assert(out@.take(k as int)[j] == before[j]);
                    }
                    assert(tree_fine_at(*root, nested@, *scope, o, k as int));
                }
            },
            Err(e) => {
                proof {
                    assert(!compiles(map_at(*root, nested@, o[k as int].map as int), *scope));
                    assert(!tree_fine_at(*root, nested@, *scope, o, k as int));
                }
                return Err(e);
            },
        }
        k = k + 1;
    }
    Ok((out, carriers))
}

} // verus!
