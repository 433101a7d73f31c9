//! A graph of bag rules: which bags hold which others, and how many.
//!
//! Bags are kept in an arena and refer to each other by index. Each edge is
//! stored at both ends: a bag lists its children with their counts, and each
//! child lists the bag among its parents.

use crate::text::same_text;
use std::collections::HashSet;
use vstd::prelude::*;

verus! {

broadcast use vstd::std_specs::hash::group_hash_axioms;

pub struct Bag {
    pub name: String,
    /// `(count, child index)`: this bag holds `count` bags of the child.
    pub children: Vec<(usize, usize)>,
    /// The bags that list this one among their children.
    pub parents: Vec<usize>,
}

/// One parsed rule: a bag's name and, for each kind of bag it holds, how
/// many and the name of that kind.
pub struct BagRule {
    pub name: String,
    pub contents: Vec<(usize, String)>,
}

pub open spec fn rule_names(rules: Seq<BagRule>) -> Seq<String> {
    rules.map_values(|r: BagRule| r.name)
}

/// The index of the last of `names` that reads `name`.
pub open spec fn last_named(names: Seq<String>, name: Seq<char>) -> Option<int>
    decreases names.len(),
{
    if names.len() == 0 {
        None
    } else if names.last()@ == name {
        Some(names.len() - 1)
    } else {
        last_named(names.drop_last(), name)
    }
}

pub proof fn lemma_last_named_bound(names: Seq<String>, name: Seq<char>)
    ensures
        last_named(names, name) matches Some(i) ==> 0 <= i < names.len() && names[i]@ == name,
    decreases names.len(),
{
    if names.len() > 0 && names.last()@ != name {
        lemma_last_named_bound(names.drop_last(), name);
    }
}

/// Every bag named among the contents of a rule has a rule of its own.
pub open spec fn all_declared(rules: Seq<BagRule>) -> bool {
    forall|i: int, k: int|
        0 <= i < rules.len() && 0 <= k < rules[i].contents@.len() ==> last_named(
            rule_names(rules),
            (#[trigger] rules[i].contents@[k]).1@,
        ) is Some
}

/// Bag `i`'s children as rule `i` names them, each name resolved to the
/// last rule with that name.
pub open spec fn resolved(rules: Seq<BagRule>, i: int) -> Seq<(usize, usize)> {
    rules[i].contents@.map_values(
        |c: (usize, String)| (c.0, last_named(rule_names(rules), c.1@).unwrap() as usize),
    )
}

pub struct BagGraph {
    pub bags: Vec<Bag>,
}

impl BagGraph {
    /// The bags are those of `rules`, in order, with their names and
    /// their contents resolved to indices.
    pub open spec fn built_from(&self, rules: Seq<BagRule>) -> bool {
        &&& self.bags@.len() == rules.len()
        &&& forall|i: int|
            0 <= i < rules.len() ==> {
                &&& (#[trigger] self.bags@[i]).name == rules[i].name
                &&& self.bags@[i].children@ == resolved(rules, i)
            }
    }

    /// Indices in range, and each edge stored at both of its ends: the
    /// parents of a bag are exactly the bags with an edge into it, in
    /// ascending order, once per edge.
    pub open spec fn wf(&self) -> bool {
        let bags = self.bags@;
        &&& forall|i: int, k: int|
            0 <= i < bags.len() && 0 <= k < bags[i].children@.len() ==> (
            #[trigger] bags[i].children@[k]).1 < bags.len()
        &&& forall|j: int, m: int|
            0 <= j < bags.len() && 0 <= m < bags[j].parents@.len() ==> #[trigger] bags[j].parents@[m]
                < bags.len()
        &&& forall|j: int|
            0 <= j < bags.len() ==> (#[trigger] bags[j]).parents@ == parents_upto(
                self.child_lists(),
                j,
                bags.len() as int,
            )
    }

    /// Each bag's list of children.
    pub open spec fn child_lists(&self) -> Seq<Seq<(usize, usize)>> {
        self.bags@.map_values(|b: Bag| b.children@)
    }

    /// The bags reached from `n` by following parent links one to `depth`
    /// times. A chain of parent links through distinct bags is no longer
    /// than the number of bags, so with `depth` at that number and rules in
    /// which no bag holds itself, this is every bag that holds `n`. The
    /// bound also makes the search end on rules that do hold a cycle.
    pub open spec fn ancestors_within(&self, n: int, depth: nat) -> Set<usize>
        decreases depth, 0int,
    {
        if depth == 0 || !(0 <= n < self.bags@.len()) {
            Set::empty()
        } else {
            self.ancestors_of_list(self.bags@[n].parents@, (depth - 1) as nat)
        }
    }

    /// Each bag of `ps`, with the bags reached from it within `depth` steps.
    pub open spec fn ancestors_of_list(&self, ps: Seq<usize>, depth: nat) -> Set<usize>
        decreases depth, ps.len(),
    {
        if ps.len() == 0 {
            Set::empty()
        } else {
            self.ancestors_of_list(ps.drop_last(), depth).insert(ps.last()).union(
                self.ancestors_within(ps.last() as int, depth),
            )
        }
    }

    /// Every bag that holds bag `n`.
    pub open spec fn ancestors(&self, n: int) -> Set<usize> {
        self.ancestors_within(n, self.bags@.len() as nat)
    }

    /// The number of bags inside bag `n`, nested bags counted, down to
    /// `depth` levels (every level, where `depth` is the number of bags and
    /// no bag holds itself).
    pub open spec fn contained_within(&self, n: int, depth: nat) -> nat
        decreases depth, 0int,
    {
        if depth == 0 || !(0 <= n < self.bags@.len()) {
            0
        } else {
            self.contained_in_list(self.bags@[n].children@, (depth - 1) as nat)
        }
    }

    /// For each `(count, child)`: `count` times the child itself and all
    /// that it holds.
    pub open spec fn contained_in_list(&self, cs: Seq<(usize, usize)>, depth: nat) -> nat
        decreases depth, cs.len(),
    {
        if cs.len() == 0 {
            0
        } else {
            self.contained_in_list(cs.drop_last(), depth) + (cs.last().0 as nat) * (1
                + self.contained_within(cs.last().1 as int, depth)) as nat
        }
    }

    /// The number of bags that bag `n` must hold.
    pub open spec fn contained(&self, n: int) -> nat {
        self.contained_within(n, self.bags@.len() as nat)
    }

    /// The index of the last bag named `name`.
    pub fn index_of(&self, name: &str) -> (r: Option<usize>)
        ensures
            match r {
                Some(i) => last_named(self.bags@.map_values(|b: Bag| b.name), name@) == Some(i as int),
                None => last_named(self.bags@.map_values(|b: Bag| b.name), name@) is None,
            },
    {
        let ghost names = self.bags@.map_values(|b: Bag| b.name);
        let mut i: usize = self.bags.len();
        proof {
            assert(names.subrange(0, i as int) =~= names);
        }
        while i > 0
            invariant
                names == self.bags@.map_values(|b: Bag| b.name),
                i <= names.len(),
                last_named(names, name@) == last_named(names.subrange(0, i as int), name@),
            decreases i,
        {
            i = i - 1;
            proof {
                assert(names.subrange(0, i + 1).drop_last() =~= names.subrange(0, i as int));
            }
            if same_text(self.bags[i].name.as_str(), name) {
                return Some(i);
            }
        }
        None
    }

    /// `path` starts at bag `n`, ends at `x`, takes between 1 and `depth`
    /// steps, and each step goes from a bag to one of its parents.
    pub open spec fn climbs(&self, path: Seq<usize>, n: int, x: usize, depth: nat) -> bool {
        &&& 2 <= path.len() <= depth + 1
        &&& path[0] as int == n
        &&& path.last() == x
        &&& forall|t: int| 0 <= t < path.len() - 1 ==> #[trigger] self.steps_up(path, t)
    }

    /// The bag after position `t` of `path` is a parent of the bag at `t`.
    pub open spec fn steps_up(&self, path: Seq<usize>, t: int) -> bool {
        (path[t] as int) < self.bags@.len() && self.bags@[path[t] as int].parents@.contains(
            path[t + 1],
        )
    }

    proof fn lemma_list_member(&self, ps: Seq<usize>, depth: nat, x: usize)
        ensures
            self.ancestors_of_list(ps, depth).contains(x) <==> exists|m: int|
                0 <= m < ps.len() && (x == ps[m] || self.ancestors_within(
                    #[trigger] ps[m] as int,
                    depth,
                ).contains(x)),
        decreases ps.len(),
    {
        if ps.len() > 0 {
            let init = ps.drop_last();
            self.lemma_list_member(init, depth, x);
            if self.ancestors_of_list(ps, depth).contains(x) {
                if !self.ancestors_of_list(init, depth).contains(x) {
                    let m = ps.len() - 1;
                    assert(x == ps[m] || self.ancestors_within(ps[m] as int, depth).contains(x));
                } else {
                    let m = choose|m: int|
                        0 <= m < init.len() && (x == init[m] || self.ancestors_within(
                            #[trigger] init[m] as int,
                            depth,
                        ).contains(x));
                    assert(ps[m] == init[m]);
                }
            }
            if exists|m: int|
                0 <= m < ps.len() && (x == ps[m] || self.ancestors_within(
                    #[trigger] ps[m] as int,
                    depth,
                ).contains(x)) {
                let m = choose|m: int|
                    0 <= m < ps.len() && (x == ps[m] || self.ancestors_within(
                        #[trigger] ps[m] as int,
                        depth,
                    ).contains(x));
                if m < ps.len() - 1 {
                    assert(init[m] == ps[m]);
                }
            }
        }
    }

    /// A bag is among the ancestors of `n` within `depth` steps exactly when
    /// a path of one to `depth` parent links leads from `n` to it.
    pub proof fn lemma_ancestors_are_paths(&self, n: usize, x: usize, depth: nat)
        ensures
            self.ancestors_within(n as int, depth).contains(x) <==> exists|path: Seq<usize>|
                #[trigger] self.climbs(path, n as int, x, depth),
        decreases depth,
    {
        if depth == 0 || !(n < self.bags@.len()) {
            if exists|path: Seq<usize>| #[trigger] self.climbs(path, n as int, x, depth) {
                let path = choose|path: Seq<usize>| #[trigger] self.climbs(path, n as int, x, depth);
                assert(self.steps_up(path, 0));
            }
        } else {
            let d = (depth - 1) as nat;
            let ps = self.bags@[n as int].parents@;
            self.lemma_list_member(ps, d, x);
            if self.ancestors_within(n as int, depth).contains(x) {
                let m = choose|m: int|
                    0 <= m < ps.len() && (x == ps[m] || self.ancestors_within(
                        #[trigger] ps[m] as int,
                        d,
                    ).contains(x));
                let p = ps[m];
                assert(ps.contains(p));
                if x == p {
                    let path = seq![n, p];
                    assert(self.steps_up(path, 0));
                    assert(self.climbs(path, n as int, x, depth));
                } else {
                    self.lemma_ancestors_are_paths(p, x, d);
                    let q = choose|q: Seq<usize>| #[trigger] self.climbs(q, p as int, x, d);
                    let path = seq![n] + q;
                    assert forall|t: int| 0 <= t < path.len() - 1 implies #[trigger] self.steps_up(
                        path,
                        t,
                    ) by {
                        assert(path[1] == q[0]);
                        if t > 0 {
                            assert(path[t] == q[t - 1]);
                            assert(path[t + 1] == q[t]);
                            assert(self.steps_up(q, t - 1));
                        } else {
                            assert(path[0] == n);
                            assert(q[0] == p);
                        }
                    }
                    assert(path.last() == q.last());
                    assert(path[0] == n);
                    assert(path.len() == q.len() + 1);
                    assert(self.climbs(path, n as int, x, depth));
                }
            }
            if exists|path: Seq<usize>| #[trigger] self.climbs(path, n as int, x, depth) {
                let path = choose|path: Seq<usize>| #[trigger] self.climbs(path, n as int, x, depth);
                let p = path[1];
                assert(self.steps_up(path, 0));
                let m = choose|m: int| 0 <= m < ps.len() && ps[m] == p;
                if path.len() > 2 {
                    let q = path.subrange(1, path.len() as int);
                    assert forall|t: int| 0 <= t < q.len() - 1 implies #[trigger] self.steps_up(q, t) by {
                        assert(q[t] == path[t + 1]);
                        assert(q[t + 1] == path[t + 2]);
                        assert(self.steps_up(path, t + 1));
                    }
                    assert(q[0] == p);
                    assert(q.last() == path.last());
                    assert(q.len() == path.len() - 1);
                    assert(self.climbs(q, p as int, x, d));
                    self.lemma_ancestors_are_paths(p, x, d);
                    assert(self.ancestors_within(ps[m] as int, d).contains(x));
                } else {
                    assert(x == ps[m]);
                }
            }
        }
    }

    /// A bag that holds no others contains nothing.
    pub proof fn lemma_no_children(&self, n: int)
        requires
            0 <= n < self.bags@.len(),
            self.bags@[n].children@.len() == 0,
        ensures
            self.contained(n) == 0,
    {
    }

    /// A bag that no other holds has no ancestors.
    pub proof fn lemma_no_parents(&self, n: int)
        requires
            0 <= n < self.bags@.len(),
            self.bags@[n].parents@.len() == 0,
        ensures
            self.ancestors(n) == Set::<usize>::empty(),
    {
    }

    /// Adds to `acc` the ancestors of `node_ix` within `depth` steps.
    fn add_ancestors(&self, node_ix: usize, depth: usize, acc: &mut HashSet<usize>)
        requires
            self.wf(),
            node_ix < self.bags@.len(),
        ensures
            final(acc)@ == old(acc)@.union(self.ancestors_within(node_ix as int, depth as nat)),
        decreases depth, 1int,
    {
        if depth == 0 {
            proof {
                assert(old(acc)@.union(Set::empty()) =~= old(acc)@);
            }
            return;
        }
        let parents = &self.bags[node_ix].parents;
        let ghost start = acc@;
        let mut k: usize = 0;
        proof {
            assert(parents@.subrange(0, 0) =~= Seq::<usize>::empty());
            assert(start.union(Set::empty()) =~= start);
        }
        while k < parents.len()
            invariant
                self.wf(),
                node_ix < self.bags@.len(),
                depth > 0,
                parents == &self.bags@[node_ix as int].parents,
                k <= parents@.len(),
                acc@ == start.union(
                    self.ancestors_of_list(parents@.subrange(0, k as int), (depth - 1) as nat),
                ),
            decreases parents@.len() - k,
        {
            let p = parents[k];
            let ghost before = acc@;
            acc.insert(p);
            self.add_ancestors(p, depth - 1, acc);
            proof {
                let d = (depth - 1) as nat;
                let ps = parents@.subrange(0, k + 1);
                assert(ps.drop_last() =~= parents@.subrange(0, k as int));
                assert(acc@ =~= start.union(self.ancestors_of_list(ps, d)));
            }
            k = k + 1;
        }
        proof {
            assert(parents@.subrange(0, k as int) =~= parents@);
        }
    }

    /// The set of every bag that holds bag `node_ix`, directly or inside
    /// other bags, each once.
    pub fn find_parents(&self, node_ix: usize) -> (r: HashSet<usize>)
        requires
            self.wf(),
            node_ix < self.bags@.len(),
        ensures
            r@ == self.ancestors(node_ix as int),
    {
        let mut parents: HashSet<usize> = HashSet::new();
        self.add_ancestors(node_ix, self.bags.len(), &mut parents);
        proof {
            assert(Set::<usize>::empty().union(self.ancestors(node_ix as int)) =~= self.ancestors(
                node_ix as int,
            ));
        }
        parents
    }

    proof fn lemma_contained_prefix(&self, cs: Seq<(usize, usize)>, depth: nat, j: int)
        requires
            0 <= j <= cs.len(),
        ensures
            self.contained_in_list(cs.subrange(0, j), depth) <= self.contained_in_list(cs, depth),
        decreases cs.len(),
    {
        if j < cs.len() {
            assert(cs.drop_last().subrange(0, j) =~= cs.subrange(0, j));
            self.lemma_contained_prefix(cs.drop_last(), depth, j);
        } else {
            assert(cs.subrange(0, j) =~= cs);
        }
    }

    /// The bags inside bag `node_ix` down to `depth` levels; `None` when
    /// that number does not fit in a `usize`.
    fn count_within(&self, node_ix: usize, depth: usize) -> (r: Option<usize>)
        requires
            self.wf(),
            node_ix < self.bags@.len(),
        ensures
            match r {
                Some(v) => v == self.contained_within(node_ix as int, depth as nat),
                None => self.contained_within(node_ix as int, depth as nat) > usize::MAX,
            },
        decreases depth,
    {
        if depth == 0 {
            return Some(0);
        }
        let children = &self.bags[node_ix].children;
        let ghost d = (depth - 1) as nat;
        let mut count: usize = 0;
        let mut k: usize = 0;
        proof {
            assert(children@.subrange(0, 0) =~= Seq::<(usize, usize)>::empty());
        }
        while k < children.len()
            invariant
                self.wf(),
                node_ix < self.bags@.len(),
                depth > 0,
                d == depth - 1,
                children == &self.bags@[node_ix as int].children,
                k <= children@.len(),
                count == self.contained_in_list(children@.subrange(0, k as int), d),
            decreases children@.len() - k,
        {
            let (child_count, child_ix) = children[k];
            let ghost cs = children@.subrange(0, k + 1);
            proof {
                assert(cs.drop_last() =~= children@.subrange(0, k as int));
                self.lemma_contained_prefix(children@, d, k + 1);
                assert(children@.subrange(0, children@.len() as int) =~= children@);
            }
            if child_count != 0 {
                let inner = match self.count_within(child_ix, depth - 1) {
                    Some(v) => v,
                    None => {
                        proof {
                            let t = self.contained_within(child_ix as int, d);
                            assert(child_count * (1 + t) >= t) by (nonlinear_arith)
                                requires
                                    child_count >= 1,
                            ;
                        }
                        return None;
                    },
                };
                let added = match inner.checked_add(1) {
                    Some(v) => match child_count.checked_mul(v) {
                        Some(w) => count.checked_add(w),
                        None => None,
                    },
                    None => None,
                };
                match added {
                    Some(c) => {
                        count = c;
                        proof {
                            assert(cs.last() == (child_count, child_ix));
                        }
                    },
                    None => {
                        proof {
                            let t = self.contained_within(child_ix as int, d);
                            assert(child_count * (1 + t) >= 1 + t) by (nonlinear_arith)
                                requires
                                    child_count >= 1,
                            ;
                        }
                        return None;
                    },
                }
            }
            else {
                proof {
                    let t = self.contained_within(child_ix as int, d);
                    assert(cs.last() == (child_count, child_ix));
                    assert((child_count as nat) * (1 + t) as nat == 0) by (nonlinear_arith)
                        requires
                            child_count == 0,
                    ;
                }
            }
            k = k + 1;
        }
        proof {
            assert(children@.subrange(0, k as int) =~= children@);
        }
        Some(count)
    }

    /// The number of bags that bag `node_ix` must hold: for each
    /// `(count, child)`, `count` times the child and all that it holds.
    /// `None` when that number does not fit in a `usize`.
    pub fn count_children(&self, node_ix: usize) -> (r: Option<usize>)
        requires
            self.wf(),
            node_ix < self.bags@.len(),
        ensures
            match r {
                Some(v) => v == self.contained(node_ix as int),
                None => self.contained(node_ix as int) > usize::MAX,
            },
    {
        self.count_within(node_ix, self.bags.len())
    }
}

/// Resolves the names of one rule's contents.
pub(crate) fn resolve_contents(names: &Vec<String>, contents: &Vec<(usize, String)>) -> (r: Option<
    Vec<(usize, usize)>,
>)
    ensures
        match r {
            Some(v) => {
                &&& forall|k: int|
                    0 <= k < contents@.len() ==> last_named(names@, (#[trigger] contents@[k]).1@) is Some
                &&& v@ == contents@.map_values(
                    |c: (usize, String)| (c.0, last_named(names@, c.1@).unwrap() as usize),
                )
            },
            None => exists|k: int|
                0 <= k < contents@.len() && last_named(names@, (#[trigger] contents@[k]).1@) is None,
        },
{
    let mut out: Vec<(usize, usize)> = Vec::new();
    let mut k: usize = 0;
    while k < contents.len()
        invariant
            k <= contents@.len(),
            forall|m: int| 0 <= m < k ==> last_named(names@, (#[trigger] contents@[m]).1@) is Some,
            out@ == contents@.subrange(0, k as int).map_values(
                |c: (usize, String)| (c.0, last_named(names@, c.1@).unwrap() as usize),
            ),
        decreases contents@.len() - k,
    {
        match index_of_name(names, &contents[k].1) {
            Some(ix) => {
                out.push((contents[k].0, ix));
                proof {
                    assert(contents@.subrange(0, k + 1).map_values(
                        |c: (usize, String)| (c.0, last_named(names@, c.1@).unwrap() as usize),
                    ) =~= out@);
                }
            },
            None => {
                return None;
            },
        }
        k = k + 1;
    }
    proof {
        assert(contents@.subrange(0, k as int) =~= contents@);
    }
    Some(out)
}

/// The index of the last of `names` that reads `name`.
pub fn index_of_name(names: &Vec<String>, name: &String) -> (r: Option<usize>)
    ensures
        match r {
            Some(i) => last_named(names@, name@) == Some(i as int),
            None => last_named(names@, name@) is None,
        },
{
    let mut i: usize = names.len();
    proof {
        assert(names@.subrange(0, i as int) =~= names@);
    }
    while i > 0
        invariant
            i <= names@.len(),
            last_named(names@, name@) == last_named(names@.subrange(0, i as int), name@),
        decreases i,
    {
        i = i - 1;
        proof {
            assert(names@.subrange(0, i + 1).drop_last() =~= names@.subrange(0, i as int));
        }
        if names[i].eq(name) {
            return Some(i);
        }
    }
    None
}

/// Bag `i` once for each entry of `children` that is bag `j`.
pub open spec fn edges_into(children: Seq<(usize, usize)>, i: int, j: int) -> Seq<usize>
    decreases children.len(),
{
    if children.len() == 0 {
        Seq::empty()
    } else {
        edges_into(children.drop_last(), i, j) + if children.last().1 == j {
            seq![i as usize]
        } else {
            Seq::empty()
        }
    }
}

/// The parents of bag `j` among the first `n` bags: their indices in
/// ascending order, each once per edge into `j`.
pub open spec fn parents_upto(children: Seq<Seq<(usize, usize)>>, j: int, n: int) -> Seq<usize>
    decreases n,
{
    if n <= 0 {
        Seq::empty()
    } else {
        parents_upto(children, j, n - 1) + edges_into(children[n - 1], n - 1, j)
    }
}

pub open spec fn lists_view(children: Seq<Vec<(usize, usize)>>) -> Seq<Seq<(usize, usize)>> {
    children.map_values(|v: Vec<(usize, usize)>| v@)
}

/// The parents of bag `j`, once per edge into it, in order of index.
fn parents_of(children: &Vec<Vec<(usize, usize)>>, j: usize) -> (r: Vec<usize>)
    ensures
        forall|m: int| 0 <= m < r@.len() ==> #[trigger] r@[m] < children@.len(),
        r@ == parents_upto(lists_view(children@), j as int, children@.len() as int),
{
    let ghost cs = lists_view(children@);
    let mut out: Vec<usize> = Vec::new();
    let mut i: usize = 0;
    while i < children.len()
        invariant
            cs == lists_view(children@),
            i <= children@.len(),
            forall|m: int| 0 <= m < out@.len() ==> #[trigger] out@[m] < i,
            out@ == parents_upto(cs, j as int, i as int),
        decreases children@.len() - i,
    {
        let row = &children[i];
        let ghost before = out@;
        let mut k: usize = 0;
        proof {
            assert(row@.subrange(0, 0) =~= Seq::<(usize, usize)>::empty());
            assert(before + Seq::<usize>::empty() =~= before);
        }
        while k < row.len()
            invariant
                cs == lists_view(children@),
                i < children@.len(),
                row == &children@[i as int],
                k <= row@.len(),
                forall|m: int| 0 <= m < out@.len() ==> #[trigger] out@[m] < i + 1,
                out@ == before + edges_into(row@.subrange(0, k as int), i as int, j as int),
            decreases row@.len() - k,
        {
            proof {
                assert(row@.subrange(0, k + 1).drop_last() =~= row@.subrange(0, k as int));
            }
            if row[k].1 == j {
                out.push(i);
            }
            proof {
                let e = edges_into(row@.subrange(0, k + 1), i as int, j as int);
                assert(out@ =~= before + e);
            }
            k = k + 1;
        }
        proof {
            assert(row@.subrange(0, k as int) =~= row@);
            assert(cs[i as int] == row@);
        }
        i = i + 1;
    }
    out
}

impl BagGraph {
    /// Builds the graph of `rules`: one bag per rule, in order, each linked
    /// to its children and back from each child to it. `None` when a rule
    /// names a bag that has no rule of its own.
    pub fn from_rules(rules: &Vec<BagRule>) -> (r: Option<BagGraph>)
        ensures
            match r {
                Some(g) => g.wf() && g.built_from(rules@) && all_declared(rules@),
                None => !all_declared(rules@),
            },
    {
        let n = rules.len();
        let mut names: Vec<String> = Vec::new();
        let mut i: usize = 0;
        while i < n
            invariant
                n == rules@.len(),
                i <= n,
                names@ == rule_names(rules@).subrange(0, i as int),
            decreases n - i,
        {
            names.push(rules[i].name.clone());
            proof {
                assert(names@ =~= rule_names(rules@).subrange(0, i + 1));
            }
            i = i + 1;
        }
        proof {
            assert(names@ =~= rule_names(rules@));
        }
        let mut children: Vec<Vec<(usize, usize)>> = Vec::new();
        i = 0;
        while i < n
            invariant
                n == rules@.len(),
                names@ == rule_names(rules@),
                i <= n,
                children@.len() == i,
                forall|t: int| 0 <= t < i ==> (#[trigger] children@[t])@ == resolved(rules@, t),
                forall|t: int, k: int|
                    0 <= t < i && 0 <= k < rules@[t].contents@.len() ==> last_named(
                        names@,
                        (#[trigger] rules@[t].contents@[k]).1@,
                    ) is Some,
            decreases n - i,
        {
            match resolve_contents(&names, &rules[i].contents) {
                Some(v) => {
                    children.push(v);
                },
                None => {
                    return None;
                },
            }
            i = i + 1;
        }
        proof {
            assert forall|t: int, k: int|
                0 <= t < n && 0 <= k < children@[t]@.len() implies (
                #[trigger] children@[t]@[k]).1 < n by {
                let c = rules@[t].contents@[k];
                lemma_last_named_bound(names@, c.1@);
            }
        }
        let mut parents: Vec<Vec<usize>> = Vec::new();
        i = 0;
        while i < n
            invariant
                n == rules@.len(),
                n == children@.len(),
                i <= n,
                parents@.len() == i,
                forall|j: int, m: int|
                    0 <= j < i && 0 <= m < parents@[j]@.len() ==> #[trigger] parents@[j]@[m] < n,
                forall|j: int|
                    0 <= j < i ==> (#[trigger] parents@[j])@ == parents_upto(
                        lists_view(children@),
                        j,
                        n as int,
                    ),
            decreases n - i,
        {
            let p = parents_of(&children, i);
            parents.push(p);
            proof {
                assert(parents@[i as int] == p);
            }
            i = i + 1;
        }
        let ghost all_names = names@;
        let ghost all_children = children@;
        let ghost all_parents = parents@;
        let mut bags: Vec<Bag> = Vec::new();
        let mut m: usize = n;
        while m > 0
            invariant
                m <= n,
                all_names.len() == n,
                all_children.len() == n,
                all_parents.len() == n,
                names@ == all_names.subrange(0, m as int),
                children@ == all_children.subrange(0, m as int),
                parents@ == all_parents.subrange(0, m as int),
                bags@.len() == n - m,
                forall|t: int|
                    0 <= t < n - m ==> {
                        &&& (#[trigger] bags@[t]).name == all_names[m + t]
                        &&& bags@[t].children == all_children[m + t]
                        &&& bags@[t].parents == all_parents[m + t]
                    },
            decreases m,
        {
            let name = names.pop().unwrap();
            let cs = children.pop().unwrap();
            let ps = parents.pop().unwrap();
            bags.insert(0, Bag { name, children: cs, parents: ps });
            m = m - 1;
            proof {
                assert(names@ =~= all_names.subrange(0, m as int));
                assert(children@ =~= all_children.subrange(0, m as int));
                assert(parents@ =~= all_parents.subrange(0, m as int));
            }
        }
        let g = BagGraph { bags };
        proof {
            assert forall|t: int| 0 <= t < n implies (#[trigger] g.bags@[t]).children@ == all_children[t]@
                && g.bags@[t].parents@ == all_parents[t]@ by {
                assert(g.bags@[t] == bags@[t]);
            }
            assert(g.child_lists() =~= lists_view(all_children));
        }
        Some(g)
    }
}

} // verus!
