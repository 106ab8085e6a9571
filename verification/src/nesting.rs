//! The tree of nested maps. A map nests other maps by name, each name must
//! have a geometry, and no map may nest itself, however deep; the maps the
//! root reaches are the ones that get compiled.
use vstd::prelude::*;

use crate::messages::quoted;
use crate::tables::{lemma_name_index, name_index};

verus! {

/// The named geometries of a map file, each with the names of the maps it
/// nests, in order.
#[derive(Clone, Debug)]
pub struct NestingTree {
    pub names: Vec<String>,
    pub children: Vec<Vec<String>>,
}

/// Why a map tree was rejected.
#[derive(Clone, Debug)]
pub enum NestingError {
    /// The maps of a chain of nestings that comes back to one of them; the
    /// last name is the one that repeats.
    Loop(Vec<String>),
    /// A nested map whose name has no geometry.
    Missing(String),
}

impl NestingTree {
    /// Every geometry has its list of nested maps, and no name is given twice.
    pub open spec fn wf(&self) -> bool {
        &&& self.names@.len() == self.children@.len()
        &&& forall|a: int, b: int| 0 <= a < b < self.names@.len() ==> self.names@[a]@ != self.names@[b]@
    }

    /// The geometry called `name`.
    pub open spec fn find(&self, name: Seq<char>) -> Option<int> {
        name_index(self.names@, name)
    }

    /// The `k`-th map that geometry `i` nests is geometry `j`.
    pub open spec fn child_edge(&self, i: int, k: int, j: int) -> bool {
        &&& 0 <= i < self.children@.len()
        &&& 0 <= k < self.children@[i]@.len()
        &&& self.find(self.children@[i]@[k]@) == Some(j)
    }

    /// Geometry `i` nests geometry `j`.
    pub open spec fn edge(&self, i: int, j: int) -> bool {
        exists|k: int| #[trigger] self.child_edge(i, k, j)
    }

    /// A chain of geometries, each nesting the next.
    pub open spec fn is_path(&self, p: Seq<usize>) -> bool {
        &&& forall|t: int| 0 <= t < p.len() ==> (#[trigger] p[t] as int) < self.names@.len()
        &&& forall|t: int|
            #![trigger p[t], p[t + 1]]
            0 <= t < p.len() - 1 ==> self.edge(p[t] as int, p[t + 1] as int)
    }

    /// A chain that comes back to where it started.
    pub open spec fn is_cycle(&self, p: Seq<usize>) -> bool {
        &&& p.len() >= 2
        &&& self.is_path(p)
        &&& p[0] == p[p.len() - 1]
    }

    /// No geometry nests itself, however deep.
    pub open spec fn acyclic(&self) -> bool {
        forall|p: Seq<usize>| !#[trigger] self.is_cycle(p)
    }

    /// Every name the root or a geometry nests has a geometry.
    pub open spec fn all_defined(&self, root: Seq<String>) -> bool {
        &&& forall|k: int| 0 <= k < root.len() ==> self.find(#[trigger] root[k]@) is Some
        &&& forall|i: int, k: int|
            0 <= i < self.children@.len() && 0 <= k < self.children@[i]@.len() ==> self.find(
                #[trigger] self.children@[i]@[k]@,
            ) is Some
    }

    /// The root nests geometry `j` directly.
    pub open spec fn root_entry(&self, root: Seq<String>, j: int) -> bool {
        exists|k: int| 0 <= k < root.len() && self.find(#[trigger] root[k]@) == Some(j)
    }

    /// The root nests geometry `j`, directly or through other geometries.
    pub open spec fn reachable(&self, root: Seq<String>, j: int) -> bool {
        exists|p: Seq<usize>|
            #![trigger self.is_path(p)]
            p.len() >= 1 && self.is_path(p) && self.root_entry(root, p[0] as int) && p[p.len() - 1] == j
    }

    /// `names` are the names along a chain of nestings whose last geometry
    /// appears earlier in the chain.
    pub open spec fn names_loop(&self, names: Seq<String>) -> bool {
        exists|p: Seq<usize>|
            #![trigger self.is_path(p)]
            {
                &&& self.is_path(p)
                &&& p.len() == names.len()
                &&& forall|t: int| 0 <= t < p.len() ==> (#[trigger] names[t])@ == self.names@[p[t] as int]@
                &&& exists|a: int| 0 <= a < p.len() - 1 && #[trigger] p[a] == p[p.len() - 1]
            }
    }

    /// A loop as met on one chain of nestings: no name twice before the last,
    /// which comes back to one of them.
    pub open spec fn simple_loop(&self, names: Seq<String>) -> bool {
        &&& names.len() >= 2
        &&& self.names_loop(names)
        &&& forall|a: int, b: int| 0 <= a < b < names.len() - 1 ==> (#[trigger] names[a])@ != (#[trigger] names[b])@
    }

    /// Some name the root or a geometry nests is `name`.
    pub open spec fn referenced(&self, root: Seq<String>, name: Seq<char>) -> bool {
        ||| exists|k: int| 0 <= k < root.len() && (#[trigger] root[k])@ == name
        ||| exists|i: int, k: int|
            0 <= i < self.children@.len() && 0 <= k < self.children@[i]@.len() && (
            #[trigger] self.children@[i]@[k])@ == name
    }

    /// Every geometry that is done has all its nested maps done before it:
    /// each has a geometry, is done, and has a lower rank.
    pub open spec fn settled(&self, done: Seq<bool>, rank: Seq<int>, i: int, k: int) -> bool {
        match self.find(self.children@[i]@[k]@) {
            Some(j) => done[j] && rank[j] < rank[i],
            None => false,
        }
    }

    pub open spec fn closed(&self, done: Seq<bool>, rank: Seq<int>) -> bool {
        &&& done.len() == self.names@.len()
        &&& rank.len() == self.names@.len()
        &&& forall|i: int, k: int|
            0 <= i < done.len() && done[i] && 0 <= k < self.children@[i]@.len() ==> #[trigger] self.settled(
                done,
                rank,
                i,
                k,
            )
    }
}

/// A list of distinct numbers below `n` holds at most `n` of them.
proof fn lemma_distinct_below(s: Seq<usize>, n: int)
    requires
        s.no_duplicates(),
        forall|t: int| 0 <= t < s.len() ==> (#[trigger] s[t] as int) < n,
        0 <= n,
    ensures
        s.len() <= n,
{
    let ints = s.map_values(|x: usize| x as int);
    assert forall|a: int, b: int| 0 <= a < ints.len() && 0 <= b < ints.len() && a != b implies ints[a] != ints[b] by {
        assert(s[a] != s[b]);
    }
    assert(ints.no_duplicates());
    ints.unique_seq_to_set();
    vstd::set_lib::lemma_int_range(0, n);
    assert(ints.to_set().subset_of(vstd::set_lib::set_int_range(0, n))) by {
        assert forall|x: int| ints.to_set().contains(x) implies vstd::set_lib::set_int_range(0, n).contains(x) by {
            let t = choose|t: int| 0 <= t < ints.len() && ints[t] == x;
            assert(s[t] as int == x);
        }
    }
    vstd::set_lib::lemma_len_subset(ints.to_set(), vstd::set_lib::set_int_range(0, n));
}

/// Along a chain that starts at a done geometry, every step goes to a done
/// geometry of lower rank.
proof fn lemma_chain_descends(tree: NestingTree, done: Seq<bool>, rank: Seq<int>, p: Seq<usize>, n: int)
    requires
        tree.closed(done, rank),
        tree.is_path(p),
        1 <= n <= p.len(),
        done[p[0] as int],
    ensures
        done[p[n - 1] as int],
        n >= 2 ==> rank[p[n - 1] as int] < rank[p[0] as int],
    decreases n,
{
    if n >= 2 {
        lemma_chain_descends(tree, done, rank, p, n - 1);
        let t = n - 2;
        let i = p[t] as int;
        let j = p[t + 1] as int;
        assert(tree.edge(i, j));
        let k = choose|k: int| #[trigger] tree.child_edge(i, k, j);
        assert(tree.settled(done, rank, i, k));
    }
}

/// When every geometry is done, no chain of nestings comes back.
proof fn lemma_done_acyclic(tree: NestingTree, done: Seq<bool>, rank: Seq<int>)
    requires
        tree.closed(done, rank),
        forall|i: int| 0 <= i < done.len() ==> #[trigger] done[i],
    ensures
        tree.acyclic(),
{
    assert forall|p: Seq<usize>| !#[trigger] tree.is_cycle(p) by {
        if tree.is_cycle(p) {
            assert((p[0] as int) < tree.names@.len());
            lemma_chain_descends(tree, done, rank, p, p.len() as int);
        }
    }
}

/// When every geometry is done, every nested name has a geometry, provided
/// the root's do.
proof fn lemma_done_defined(tree: NestingTree, root: Seq<String>, done: Seq<bool>, rank: Seq<int>)
    requires
        tree.closed(done, rank),
        tree.names@.len() == tree.children@.len(),
        forall|i: int| 0 <= i < done.len() ==> #[trigger] done[i],
        forall|k: int| 0 <= k < root.len() ==> tree.find(#[trigger] root[k]@) is Some,
    ensures
        tree.all_defined(root),
{
    assert forall|i: int, k: int|
        0 <= i < tree.children@.len() && 0 <= k < tree.children@[i]@.len() implies tree.find(
        #[trigger] tree.children@[i]@[k]@,
    ) is Some by {
        assert(done[i]);
        assert(tree.settled(done, rank, i, k));
    }
}

/// What the root nests directly is done, so all it reaches is done.
proof fn lemma_reached_done(tree: NestingTree, root: Seq<String>, done: Seq<bool>, rank: Seq<int>, j: int)
    requires
        tree.closed(done, rank),
        forall|i: int| 0 <= i < done.len() && tree.root_entry(root, i) ==> #[trigger] done[i],
        tree.reachable(root, j),
    ensures
        done[j],
{
    let p = choose|p: Seq<usize>|
        #![trigger tree.is_path(p)]
        p.len() >= 1 && tree.is_path(p) && tree.root_entry(root, p[0] as int) && p[p.len() - 1] == j;
    assert((p[0] as int) < tree.names@.len());
    assert(done[p[0] as int]);
    lemma_chain_descends(tree, done, rank, p, p.len() as int);
}

/// Names along a chain that comes back make a cycle.
proof fn lemma_loop_cycle(tree: NestingTree, names: Seq<String>)
    requires
        tree.names_loop(names),
    ensures
        !tree.acyclic(),
{
    let p = choose|p: Seq<usize>|
        #![trigger tree.is_path(p)]
        {
            &&& tree.is_path(p)
            &&& p.len() == names.len()
            &&& forall|t: int| 0 <= t < p.len() ==> (#[trigger] names[t])@ == tree.names@[p[t] as int]@
            &&& exists|a: int| 0 <= a < p.len() - 1 && #[trigger] p[a] == p[p.len() - 1]
        };
    let a = choose|a: int| 0 <= a < p.len() - 1 && #[trigger] p[a] == p[p.len() - 1];
    let c = p.subrange(a, p.len() as int);
    assert forall|t: int| 0 <= t < c.len() - 1 implies tree.edge(#[trigger] c[t] as int, c[t + 1] as int) by {
        assert(c[t] == p[a + t]);
        assert(c[t + 1] == p[a + t + 1]);
    }
    assert(tree.is_cycle(c));
}

/// The first position of `name` in `names`.
fn position_of(names: &Vec<String>, name: &String) -> (found: Option<usize>)
    ensures
        found matches Some(i) ==> name_index(names@, name@) == Some(i as int),
        found is None ==> name_index(names@, name@) is None,
{
    proof {
        lemma_name_index(names@, name@);
    }
    let mut i: usize = 0;
    while i < names.len()
        invariant
            i <= names@.len(),
            forall|j: int| 0 <= j < i ==> names@[j]@ != name@,
            name_index(names@, name@) matches Some(x) ==> 0 <= x < names@.len() && names@[x]@ == name@ && forall|j: int|
                0 <= j < x ==> names@[j]@ != name@,
            name_index(names@, name@) is None ==> forall|j: int| 0 <= j < names@.len() ==> names@[j]@ != name@,
        decreases names@.len() - i,
    {
        if names[i] == *name {
            return Some(i);
        }
        i = i + 1;
    }
    None
}

fn contains_index(chain: &Vec<usize>, j: usize) -> (found: bool)
    ensures
        found == chain@.contains(j),
{
    let mut t: usize = 0;
    while t < chain.len()
        invariant
            t <= chain@.len(),
            forall|u: int| 0 <= u < t ==> chain@[u] != j,
        decreases chain@.len() - t,
    {
        if chain[t] == j {
            return true;
        }
        t = t + 1;
    }
    false
}

impl NestingTree {
    /// The names of the geometries along `chain`, then `last`.
    fn chain_names(&self, chain: &Vec<usize>, last: &String) -> (names: Vec<String>)
        requires
            forall|t: int| 0 <= t < chain@.len() ==> (#[trigger] chain@[t] as int) < self.names@.len(),
        ensures
            names@.len() == chain@.len() + 1,
            forall|t: int| 0 <= t < chain@.len() ==> (#[trigger] names@[t])@ == self.names@[chain@[t] as int]@,
            names@[chain@.len() as int]@ == last@,
    {
        let mut names: Vec<String> = Vec::new();
        let mut t: usize = 0;
        while t < chain.len()
            invariant
                t <= chain@.len(),
                forall|u: int| 0 <= u < chain@.len() ==> (#[trigger] chain@[u] as int) < self.names@.len(),
                names@.len() == t,
                forall|u: int| 0 <= u < t ==> (#[trigger] names@[u])@ == self.names@[chain@[u] as int]@,
            decreases chain@.len() - t,
        {
            names.push(self.names[chain[t]].clone());
            t = t + 1;
        }
        names.push(last.clone());
        names
    }
}

impl NestingTree {
    /// The rank of every done geometry is below `next`.
    pub open spec fn ranked_below(&self, done: Seq<bool>, rank: Seq<int>, next: int) -> bool {
        forall|i: int| 0 <= i < done.len() && done[i] ==> #[trigger] rank[i] < next
    }

    /// The chain being visited: no geometry twice, each nesting the next,
    /// none of them done.
    pub open spec fn chain_ok(&self, chain: Seq<usize>, done: Seq<bool>) -> bool {
        &&& chain.no_duplicates()
        &&& self.is_path(chain)
        &&& forall|t: int| 0 <= t < chain.len() ==> !done[#[trigger] chain[t] as int]
    }

    /// Where `name` comes from: the last geometry of the chain nests it, or,
    /// with an empty chain, the root nests it or it names a geometry.
    pub open spec fn named_from(&self, root: Seq<String>, chain: Seq<usize>, name: Seq<char>, from_root: bool) -> bool {
        if chain.len() == 0 {
            &&& from_root ==> exists|k: int| 0 <= k < root.len() && (#[trigger] root[k])@ == name
            &&& !from_root ==> self.find(name) is Some
        } else {
            exists|k: int|
                0 <= k < self.children@[chain[chain.len() - 1] as int]@.len() && (
                #[trigger] self.children@[chain[chain.len() - 1] as int]@[k])@ == name
        }
    }

    /// While visiting from the root: the chain starts at what the root
    /// nests, and all that is done is reached from the root.
    pub open spec fn from_root_ok(&self, root: Seq<String>, chain: Seq<usize>, done: Seq<bool>) -> bool {
        &&& chain.len() > 0 ==> self.root_entry(root, chain[0] as int)
        &&& forall|i: int| 0 <= i < done.len() && done[i] ==> #[trigger] self.reachable(root, i)
    }

    /// Visit the geometry called `name` and all it nests, depth first,
    /// marking each done once all it nests is done.
    fn visit_named(
        &self,
        name: &String,
        root: &Vec<String>,
        chain: &mut Vec<usize>,
        checked: &mut Vec<bool>,
        Ghost(rank): Ghost<Seq<int>>,
        Ghost(next): Ghost<int>,
        Ghost(phase1): Ghost<bool>,
        Ghost(from_root): Ghost<bool>,
    ) -> (out: (Result<(), NestingError>, Ghost<Seq<int>>, Ghost<int>))
        requires
            self.wf(),
            self.closed(old(checked)@, rank),
            self.ranked_below(old(checked)@, rank, next),
            self.chain_ok(old(chain)@, old(checked)@),
            self.named_from(root@, old(chain)@, name@, from_root),
            phase1 ==> from_root && self.from_root_ok(root@, old(chain)@, old(checked)@),
        ensures
            match out.0 {
                Ok(()) => {
                    &&& self.closed(final(checked)@, out.1@)
                    &&& self.ranked_below(final(checked)@, out.1@, out.2@)
                    &&& out.2@ >= next
                    &&& forall|i: int|
                        0 <= i < old(checked)@.len() && old(checked)@[i] ==> #[trigger] final(checked)@[i] && out.1@[i]
                            == rank[i]
                    &&& self.find(name@) matches Some(j) && final(checked)@[j]
                    &&& final(chain)@ == old(chain)@
                    &&& forall|i: int|
                        0 <= i < final(checked)@.len() && #[trigger] final(checked)@[i] && !old(checked)@[i]
                            ==> !old(chain)@.contains(i as usize)
                    &&& phase1 ==> forall|i: int|
                        0 <= i < final(checked)@.len() && #[trigger] final(checked)@[i] ==> self.reachable(root@, i)
                },
                Err(NestingError::Missing(missing)) => self.find(missing@) is None && self.referenced(root@, missing@),
                Err(NestingError::Loop(names)) => {
                    &&& self.simple_loop(names@)
                    &&& old(chain)@.len() > 0 ==> names@[0]@ == self.names@[old(chain)@[0] as int]@
                    &&& old(chain)@.len() == 0 ==> names@[0]@ == name@
                    &&& self.find(name@) matches Some(j) && !old(checked)@[j]
                },
            },
        decreases self.names@.len() - old(chain)@.len(),
    {
        let ghost n = self.names@.len() as int;
        let found = position_of(&self.names, name);
        let j = match found {
            None => {
                proof {
                    if chain@.len() == 0 {
                        let k = choose|k: int| 0 <= k < root@.len() && (#[trigger] root@[k])@ == name@;
                        assert(self.referenced(root@, name@));
                    } else {
                        let c = chain@[chain@.len() - 1] as int;
                        let k = choose|k: int| 0 <= k < self.children@[c]@.len() && (#[trigger] self.children@[c]@[k])@ == name@;
                        assert(self.referenced(root@, name@));
                    }
                }
                return (Err(NestingError::Missing(name.clone())), Ghost(rank), Ghost(next));
            },
            Some(j) => j,
        };
        proof {
            lemma_name_index(self.names@, name@);
        }
        let ghost step = chain@.len() > 0 ==> self.edge(chain@[chain@.len() - 1] as int, j as int);
        proof {
            if chain@.len() > 0 {
                let c = chain@[chain@.len() - 1] as int;
                let k = choose|k: int| 0 <= k < self.children@[c]@.len() && (#[trigger] self.children@[c]@[k])@ == name@;
                assert(self.child_edge(c, k, j as int));
            }
        }
        if contains_index(chain, j) {
            let names = self.chain_names(chain, name);
            proof {
                let p = chain@.push(j);
                let a = choose|a: int| 0 <= a < chain@.len() && chain@[a] == j;
                assert(p[a] == p[p.len() - 1]);
                assert forall|t: int| 0 <= t < p.len() - 1 implies self.edge(#[trigger] p[t] as int, p[t + 1] as int) by {
                    if t < chain@.len() - 1 {
                        assert(p[t] == chain@[t] && p[t + 1] == chain@[t + 1]);
                    }
                }
                assert(self.is_path(p));
                assert forall|t: int| 0 <= t < p.len() implies (#[trigger] names@[t])@ == self.names@[p[t] as int]@ by {
                    if t < chain@.len() {
                        assert(p[t] == chain@[t]);
                    }
                }
                assert(self.names_loop(names@));
                assert(chain@.len() > 0);
                assert forall|a: int, b: int| 0 <= a < b < names@.len() - 1 implies (#[trigger] names@[a])@ != (
                #[trigger] names@[b])@ by {
                    assert(chain@[a] != chain@[b]);
                }
            }
            return (Err(NestingError::Loop(names)), Ghost(rank), Ghost(next));
        }
        if checked[j] {
            return (Ok(()), Ghost(rank), Ghost(next));
        }
        proof {
            let c2 = chain@.push(j);
            assert forall|a: int, b: int| 0 <= a < c2.len() && 0 <= b < c2.len() && a != b implies c2[a] != c2[b] by {
                if a < chain@.len() && b < chain@.len() {
                } else if a < chain@.len() {
                    assert(chain@.contains(c2[a]));
                } else {
                    assert(chain@.contains(c2[b]));
                }
            }
            lemma_distinct_below(c2, n);
        }
        let ghost chain0 = chain@;
        let ghost checked0 = checked@;
        chain.push(j);
        proof {
            let c2 = chain@;
            assert forall|t: int| 0 <= t < c2.len() - 1 implies self.edge(#[trigger] c2[t] as int, c2[t + 1] as int) by {
                if t < chain0.len() - 1 {
                    assert(c2[t] == chain0[t] && c2[t + 1] == chain0[t + 1]);
                }
            }
            assert forall|a: int, b: int| 0 <= a < c2.len() && 0 <= b < c2.len() && a != b implies c2[a] != c2[b] by {
                if a < chain0.len() && b < chain0.len() {
                } else if a < chain0.len() {
                    assert(chain0.contains(c2[a]));
                } else {
                    assert(chain0.contains(c2[b]));
                }
            }
            if phase1 && chain0.len() == 0 {
                let k = choose|k: int| 0 <= k < root@.len() && (#[trigger] root@[k])@ == name@;
                assert(self.find(root@[k]@) == Some(j as int));
                assert(self.root_entry(root@, j as int));
            }
            if phase1 && chain0.len() > 0 {
                assert(c2[0] == chain0[0]);
            }
        }
        let ghost mut r = rank;
        let ghost mut nx = next;
        let kids = &self.children[j];
        let mut k: usize = 0;
        while k < kids.len()
            invariant
                self.wf(),
                (j as int) < n,
                n == self.names@.len(),
                chain0.len() + 1 <= n,
                checked0.len() == n,
                *kids == self.children@[j as int],
                k <= kids@.len(),
                chain@ == chain0.push(j),
                self.chain_ok(chain@, checked@),
                self.closed(checked@, r),
                self.ranked_below(checked@, r, nx),
                nx >= next,
                forall|i: int| 0 <= i < checked0.len() && #[trigger] checked0[i] ==> checked@[i] && r[i] == rank[i],
                forall|i: int| 0 <= i < checked@.len() && #[trigger] checked@[i] && !checked0[i] ==> !chain0.contains(i as usize) && i != j,
                forall|q: int| 0 <= q < k ==> match self.find((#[trigger] kids@[q])@) {
                    Some(c) => checked@[c] && r[c] < nx,
                    None => false,
                },
                phase1 ==> from_root && self.from_root_ok(root@, chain@, checked@),
                checked0 == old(checked)@,
                chain0 == old(chain)@,
                self.names@[j as int]@ == name@,
                self.find(name@) == Some(j as int),
                !checked0[j as int],
            decreases kids@.len() - k,
        {
            let ghost checked1 = checked@;
            let ghost r1 = r;
            let ghost chain1 = chain@;
            proof {
                assert(chain@[chain@.len() - 1] == j);
                assert(self.children@[j as int]@[k as int] == kids@[k as int]);
            }
            let (res, Ghost(r2), Ghost(nx2)) = self.visit_named(
                &kids[k],
                root,
                chain,
                checked,
                Ghost(r),
                Ghost(nx),
                Ghost(phase1),
                Ghost(true),
            );
            match res {
                Err(e) => {
                    proof {
                        assert(chain1[0] == if chain0.len() > 0 { chain0[0] } else { j });
                        if chain0.len() == 0 {
                            assert(self.names@[j as int]@ == name@);
                        }
                    }
                    return (Err(e), Ghost(r2), Ghost(nx2));
                },
                Ok(()) => {},
            }
            proof {
                assert(self.closed(checked@, r2));
                assert(self.ranked_below(checked@, r2, nx2));
                assert(forall|i: int| 0 <= i < checked1.len() && checked1[i] ==> #[trigger] checked@[i] && r2[i] == r1[i]);
                assert forall|i: int| 0 <= i < checked0.len() && #[trigger] checked0[i] implies checked@[i] && r2[i] == rank[i] by {
                    assert(checked1[i] && r1[i] == rank[i]);
                }
                assert forall|q: int| 0 <= q < k + 1 implies match self.find((#[trigger] kids@[q])@) {
                    Some(c) => checked@[c] && r2[c] < nx2,
                    None => false,
                } by {
                    lemma_name_index(self.names@, kids@[q]@);
                    if q < k {
                        let c = self.find(kids@[q]@).unwrap();
                        assert(checked1[c] && r1[c] < nx);
                    } else {
                        assert(kids@[q] == kids@[k as int]);
                    }
                }
                r = r2;
                nx = nx2;
                assert forall|i: int| 0 <= i < checked@.len() && #[trigger] checked@[i] && !checked0[i] implies !chain0.contains(
                    i as usize,
                ) && i != j by {
                    if !checked1[i] {
                        assert(!chain1.contains(i as usize));
                        if chain0.contains(i as usize) {
                            let t = choose|t: int| 0 <= t < chain0.len() && chain0[t] == i as usize;
                            assert(chain1[t] == i as usize);
                        }
                        assert(chain1[chain0.len() as int] == j);
                    }
                }
                assert forall|t: int| 0 <= t < chain@.len() implies !checked@[#[trigger] chain@[t] as int] by {
                    let i = chain@[t] as int;
                    if checked@[i] {
                        if !checked1[i] {
                            assert(chain1.contains(i as usize));
                        }
                    }
                }
            }
            k = k + 1;
        }
        let ghost pre = checked@;
        proof {
            assert(chain@[chain0.len() as int] == j);
            assert(!pre[j as int]);
        }
        checked.set(j, true);
        proof {
            let rr = r.update(j as int, nx);
            assert forall|i: int, q: int|
                0 <= i < checked@.len() && checked@[i] && 0 <= q < self.children@[i]@.len() implies #[trigger] self.settled(
                checked@,
                rr,
                i,
                q,
            ) by {
                if i == j as int {
                    assert(kids@[q] == self.children@[i]@[q]);
                    assert(match self.find(kids@[q]@) {
                        Some(c) => pre[c] && r[c] < nx,
                        None => false,
                    });
                    let c = self.find(kids@[q]@).unwrap();
                    lemma_name_index(self.names@, kids@[q]@);
                    assert(c != j as int);
                    assert(rr[c] == r[c]);
                    assert(rr[i] == nx);
                    assert(checked@[c]);
                } else {
                    assert(pre[i]);
                    assert(self.settled(pre, r, i, q));
                    lemma_name_index(self.names@, self.children@[i]@[q]@);
                    let c = self.find(self.children@[i]@[q]@).unwrap();
                    assert(c != j as int);
                    assert(rr[c] == r[c]);
                    assert(rr[i] == r[i]);
                    assert(checked@[c]);
                }
            }
            r = rr;
            nx = nx + 1;
        }
        chain.pop();
        proof {
            assert(chain@ =~= chain0);
        }
        (Ok(()), Ghost(r), Ghost(nx))
    }
}

impl NestingTree {
    /// Check the tree: every nested name has a geometry and no map nests
    /// itself, however deep. On success, which geometries the root reaches:
    /// the others take no part in the map.
    pub fn check(&self, root: &Vec<String>) -> (res: Result<Vec<bool>, NestingError>)
        requires
            self.wf(),
        ensures
            res is Ok <==> self.all_defined(root@) && self.acyclic(),
            res matches Ok(used) ==> used@.len() == self.names@.len() && forall|i: int|
                0 <= i < used@.len() ==> (#[trigger] used@[i] <==> self.reachable(root@, i)),
            res matches Err(NestingError::Missing(name)) ==> self.find(name@) is None && self.referenced(root@, name@),
            res matches Err(NestingError::Loop(names)) ==> self.simple_loop(names@) && ((exists|k: int|
                0 <= k < root@.len() && (#[trigger] root@[k])@ == names@[0]@) || (exists|i: int|
                0 <= i < self.names@.len() && (#[trigger] self.names@[i])@ == names@[0]@ && !self.reachable(root@, i))),
    {
        let n = self.names.len();
        let mut checked: Vec<bool> = Vec::new();
        let mut i: usize = 0;
        while i < n
            invariant
                n == self.names@.len(),
                i <= n,
                checked@.len() == i,
                forall|x: int| 0 <= x < i ==> !#[trigger] checked@[x],
            decreases n - i,
        {
            checked.push(false);
            i = i + 1;
        }
        let mut chain: Vec<usize> = Vec::new();
        let ghost mut rank: Seq<int> = Seq::new(n as nat, |x: int| 0int);
        let ghost mut next: int = 0;
        proof {
            assert(self.closed(checked@, rank));
            assert(self.chain_ok(chain@, checked@));
        }
        let mut k: usize = 0;
        while k < root.len()
            invariant
                self.wf(),
                n == self.names@.len(),
                k <= root@.len(),
                chain@.len() == 0,
                self.closed(checked@, rank),
                self.ranked_below(checked@, rank, next),
                self.from_root_ok(root@, chain@, checked@),
                forall|q: int| 0 <= q < k ==> match self.find((#[trigger] root@[q])@) {
                    Some(c) => checked@[c],
                    None => false,
                },
            decreases root@.len() - k,
        {
            let ghost before = checked@;
            let ghost rank0 = rank;
            proof {
                assert(self.chain_ok(chain@, checked@));
                assert(root@[k as int] == root@[k as int]);
            }
            let (res, Ghost(r2), Ghost(nx2)) = self.visit_named(
                &root[k],
                root,
                &mut chain,
                &mut checked,
                Ghost(rank),
                Ghost(next),
                Ghost(true),
                Ghost(true),
            );
            match res {
                Err(e) => {
                    proof {
                        self.lemma_error_rejects(root@, e);
                    }
                    return Err(e);
                },
                Ok(()) => {},
            }
            proof {
                assert forall|q: int| 0 <= q < k + 1 implies match self.find((#[trigger] root@[q])@) {
                    Some(c) => checked@[c],
                    None => false,
                } by {
                    lemma_name_index(self.names@, root@[q]@);
                    if q < k {
                        let c = self.find(root@[q]@).unwrap();
                        assert(before[c]);
                    } else {
                        assert(root@[q] == root@[k as int]);
                    }
                }
                rank = r2;
                next = nx2;
            }
            k = k + 1;
        }
        let mut used: Vec<bool> = Vec::new();
        let mut u: usize = 0;
        while u < n
            invariant
                n == self.names@.len(),
                checked@.len() == n,
                u <= n,
                used@.len() == u,
                forall|x: int| 0 <= x < u ==> #[trigger] used@[x] == checked@[x],
            decreases n - u,
        {
            used.push(checked[u]);
            u = u + 1;
        }
        proof {
            assert forall|x: int| 0 <= x < used@.len() implies (#[trigger] used@[x] <==> self.reachable(root@, x)) by {
                if self.reachable(root@, x) {
                    assert forall|y: int| 0 <= y < checked@.len() && self.root_entry(root@, y) implies #[trigger] checked@[y] by {
                        let q = choose|q: int| 0 <= q < root@.len() && self.find(#[trigger] root@[q]@) == Some(y);
                    }
                    lemma_reached_done(*self, root@, checked@, rank, x);
                }
            }
        }
        let ghost used_view = used@;
        let mut t: usize = 0;
        while t < n
            invariant
                self.wf(),
                n == self.names@.len(),
                t <= n,
                chain@.len() == 0,
                self.closed(checked@, rank),
                self.ranked_below(checked@, rank, next),
                forall|x: int| 0 <= x < t ==> #[trigger] checked@[x],
                forall|q: int| 0 <= q < root@.len() ==> self.find(#[trigger] root@[q]@) is Some,
                used@ == used_view,
                used_view.len() == n,
                forall|x: int| 0 <= x < n && #[trigger] used_view[x] ==> checked@[x],
                forall|x: int| 0 <= x < n ==> (#[trigger] used_view[x] <==> self.reachable(root@, x)),
            decreases n - t,
        {
            let ghost before = checked@;
            proof {
                lemma_name_index(self.names@, self.names@[t as int]@);
                assert(self.find(self.names@[t as int]@) == Some(t as int));
                assert(self.chain_ok(chain@, checked@));
            }
            let (res, Ghost(r2), Ghost(nx2)) = self.visit_named(
                &self.names[t],
                root,
                &mut chain,
                &mut checked,
                Ghost(rank),
                Ghost(next),
                Ghost(false),
                Ghost(false),
            );
            match res {
                Err(e) => {
                    proof {
                        self.lemma_error_rejects(root@, e);
                        if e is Loop {
                            assert(!before[t as int]);
                            assert(!used_view[t as int]);
                            assert(self.names@[t as int]@ == (e->Loop_0)@[0]@);
                        }
                    }
                    return Err(e);
                },
                Ok(()) => {},
            }
            proof {
                assert forall|x: int| 0 <= x < t + 1 implies #[trigger] checked@[x] by {
                    if x < t {
                        assert(before[x]);
                    }
                }
                rank = r2;
                next = nx2;
            }
            t = t + 1;
        }
        proof {
            lemma_done_acyclic(*self, checked@, rank);
            lemma_done_defined(*self, root@, checked@, rank);
        }
        Ok(used)
    }

    /// A missing name or a loop means the tree is not sound.
    proof fn lemma_error_rejects(&self, root: Seq<String>, e: NestingError)
        requires
            match e {
                NestingError::Missing(name) => self.find(name@) is None && self.referenced(root, name@),
                NestingError::Loop(names) => self.names_loop(names@),
            },
        ensures
            !(self.all_defined(root) && self.acyclic()),
    {
        match e {
            NestingError::Missing(name) => {
                if exists|k: int| 0 <= k < root.len() && (#[trigger] root[k])@ == name@ {
                    let k = choose|k: int| 0 <= k < root.len() && (#[trigger] root[k])@ == name@;
                    assert(self.find(root[k]@) is None);
                } else {
                    let (i, k) = choose|i: int, k: int|
                        0 <= i < self.children@.len() && 0 <= k < self.children@[i]@.len() && (
                        #[trigger] self.children@[i]@[k])@ == name@;
                    assert(self.find(self.children@[i]@[k]@) is None);
                }
            },
            NestingError::Loop(names) => {
                lemma_loop_cycle(*self, names@);
            },
        }
    }
}

/// The names joined by `" -> "`.
pub open spec fn joined(names: Seq<String>) -> Seq<char>
    decreases names.len(),
{
    if names.len() == 0 {
        Seq::empty()
    } else if names.len() == 1 {
        names[0]@
    } else {
        joined(names.drop_last()) + " -> "@ + names.last()@
    }
}

/// The text of a nesting error.
pub open spec fn nesting_error_text(e: NestingError) -> Seq<char> {
    match e {
        NestingError::Loop(names) => "nested maps loop: "@ + joined(names@),
        NestingError::Missing(name) => "nested map "@ + quoted(name@)
            + " has no named geometry in this parent's nested_geometry"@,
    }
}

impl NestingError {
    /// The error's text.
    pub fn message(&self) -> (m: String)
        ensures
            m@ == nesting_error_text(*self),
    {
        let mut s = String::new();
        match self {
            NestingError::Loop(names) => {
                s.append("nested maps loop: ");
                let mut t: usize = 0;
                while t < names.len()
                    invariant
                        t <= names@.len(),
                        s@ == "nested maps loop: "@ + joined(names@.take(t as int)),
                    decreases names@.len() - t,
                {
                    let ghost before = s@;
                    if t > 0 {
                        s.append(" -> ");
                    }
                    s.append(names[t].as_str());
                    proof {
                        let next = names@.take(t as int + 1);
                        assert(next.drop_last() =~= names@.take(t as int));
                        assert(next.last() == names@[t as int]);
                        if t == 0 {
                            assert(joined(names@.take(0)) =~= Seq::<char>::empty());
                            assert(s@ =~= "nested maps loop: "@ + joined(next));
                        } else {
                            assert(s@ =~= "nested maps loop: "@ + joined(next));
                        }
                    }
                    t = t + 1;
                }
                proof {
                    assert(names@.take(names@.len() as int) =~= names@);
                }
            },
            NestingError::Missing(name) => {
                s.append("nested map ");
                s.append("\"");
                s.append(name.as_str());
                s.append("\"");
                s.append(" has no named geometry in this parent's nested_geometry");
                proof {
                    assert(s@ =~= nesting_error_text(*self));
                }
            },
        }
        s
    }
}

/// What a map file's geometry defines besides its own layout: the catalogs
/// and the named geometries that only the root map may carry.
#[derive(Clone, Copy, Debug)]
pub struct Catalogs {
    pub switches: usize,
    pub barrier_kinds: usize,
    pub bridge_kinds: usize,
    pub fireworks: bool,
    pub nested_geometry: usize,
}

/// The geometry defines none of what only the root map defines.
pub open spec fn catalogs_absent(c: Catalogs) -> bool {
    c.switches == 0 && c.barrier_kinds == 0 && c.bridge_kinds == 0 && !c.fireworks && c.nested_geometry == 0
}

/// Whether a nested geometry keeps to its own layout: no switches, kinds,
/// fireworks or named geometries of its own.
pub fn keeps_to_layout(c: &Catalogs) -> (ok: bool)
    ensures
        ok == catalogs_absent(*c),
{
    c.switches == 0 && c.barrier_kinds == 0 && c.bridge_kinds == 0 && !c.fireworks && c.nested_geometry == 0
}

} // verus!
