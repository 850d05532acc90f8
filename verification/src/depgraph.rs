//! The dependency graph: each node lists, in order, the nodes whose results
//! it needs. Edges point from consumer to producer.

use crate::sequences::all_distinct;
use crate::sequences::lemma_filter_no_duplicates;
use crate::sequences::lemma_lists_members;
use crate::sequences::lemma_push_contains;
use crate::sequences::lemma_push_fresh;
use crate::sequences::vec_contains;
use crate::text::decimal;
use crate::text::decimal_string;
use crate::text::texts;
use std::collections::HashMap;
use std::collections::HashSet;
use vstd::prelude::*;
use vstd::string::StringExecFns;

verus! {

broadcast use vstd::std_specs::hash::group_hash_axioms;

/// `s` with every occurrence of `from` replaced by `to`: the other
/// entries, the length and the order stay.
pub open spec fn replace_all(s: Seq<u64>, from: u64, to: u64) -> Seq<u64> {
    s.map_values(
        |d: u64|
            if d == from {
                to
            } else {
                d
            },
    )
}

/// Replaces every occurrence of `from` in `v` by `to`.
pub fn replace_in(v: &mut Vec<u64>, from: u64, to: u64)
    ensures
        final(v)@ == replace_all(old(v)@, from, to),
{
    let mut i: usize = 0;
    while i < v.len()
        invariant
            i <= v.len(),
            v@.len() == old(v)@.len(),
            forall|k: int| 0 <= k < i ==> v@[k] == replace_all(old(v)@, from, to)[k],
            forall|k: int| i <= k < v@.len() ==> v@[k] == old(v)@[k],
        decreases v.len() - i,
    {
        if v[i] == from {
            v.set(i, to);
        }
        i = i + 1;
    }
    assert(v@ =~= replace_all(old(v)@, from, to));
}

/// A directed graph over node ids. `nodes` maps each node to its ordered
/// dependency list; `order` lists the nodes in the order in which they were
/// first inserted, which is the order of every traversal.
pub struct DepGraph {
    pub nodes: HashMap<u64, Vec<u64>>,
    pub order: Vec<u64>,
}

impl View for DepGraph {
    type V = Map<u64, Seq<u64>>;

    open spec fn view(&self) -> Map<u64, Seq<u64>> {
        Map::new(|k: u64| self.nodes@.contains_key(k), |k: u64| self.nodes@[k]@)
    }
}

/// The nodes of `order` that list `node` among their dependencies in `g`.
pub open spec fn dependees_of(g: Map<u64, Seq<u64>>, order: Seq<u64>, node: u64) -> Seq<u64> {
    order.filter(|m: u64| g.contains_key(m) && g[m].contains(node))
}

/// The graph after `new` has been spliced above `base`: `new` depends on
/// `base` alone, and every other list names `new` wherever it named `base`.
pub open spec fn operate_on_spec(g: Map<u64, Seq<u64>>, new: u64, base: u64) -> Map<
    u64,
    Seq<u64>,
> {
    Map::new(
        |k: u64| k == new || g.contains_key(k),
        |k: u64|
            if k == new {
                seq![base]
            } else {
                replace_all(g[k], base, new)
            },
    )
}

impl DepGraph {
    /// The nodes in insertion order.
    pub open spec fn keys(&self) -> Seq<u64> {
        self.order@
    }

    /// `order` lists exactly the nodes of the graph, each once.
    pub open spec fn wf(&self) -> bool {
        &&& self.order@.no_duplicates()
        &&& forall|k: u64|
            #![trigger self.nodes@.contains_key(k)]
            #![trigger self.order@.contains(k)]
            self.nodes@.contains_key(k) <==> self.order@.contains(k)
    }

    /// Whether the graph is well formed.
    #[verifier::loop_isolation(false)]
    pub fn is_wf(&self) -> (r: bool)
        ensures
            r == self.wf(),
    {
        if !all_distinct(&self.order) {
            return false;
        }
        proof {
            lemma_lists_members(self.order@, self.nodes@.dom());
        }
        if self.order.len() != self.nodes.len() {
            return false;
        }
        let mut i: usize = 0;
        while i < self.order.len()
            invariant
                i <= self.order.len(),
                forall|j: int| 0 <= j < i ==> self.nodes@.contains_key(#[trigger] self.order@[j]),
            decreases self.order.len() - i,
        {
            if !self.nodes.contains_key(&self.order[i]) {
                return false;
            }
            i = i + 1;
        }
        true
    }

    /// The empty graph.
    pub fn new() -> (r: Self)
        ensures
            r.wf(),
            r@ == Map::<u64, Seq<u64>>::empty(),
            r.keys() == Seq::<u64>::empty(),
    {
        let r = DepGraph { nodes: HashMap::new(), order: Vec::new() };
        assert(r@ =~= Map::<u64, Seq<u64>>::empty());
        r
    }

    /// Sets the dependency list of `operation`, replacing any previous list.
    pub fn insert(&mut self, operation: u64, depends_on: Vec<u64>)
        requires
            old(self).wf(),
        ensures
            final(self).wf(),
            final(self)@ == old(self)@.insert(operation, depends_on@),
            final(self).keys() == if old(self)@.contains_key(operation) {
                old(self).keys()
            } else {
                old(self).keys().push(operation)
            },
    {
        if !self.nodes.contains_key(&operation) {
            self.order.push(operation);
        }
        self.nodes.insert(operation, depends_on);
        proof {
            let o = old(self).order@;
            assert(self@ =~= old(self)@.insert(operation, depends_on@));
            if !old(self).nodes@.contains_key(operation) {
                lemma_push_fresh(o, operation);
            }
            assert(self.order@.no_duplicates());
            assert forall|k: u64| self.nodes@.contains_key(k) <==> self.order@.contains(k) by {
                assert(old(self).nodes@.contains_key(k) <==> o.contains(k));
            }
        }
    }

    /// The dependency list of `operation`, if the graph holds it.
    pub fn depends_on(&self, operation: &u64) -> (r: Option<&Vec<u64>>)
        ensures
            match r {
                Some(deps) => self@.contains_key(*operation) && deps@ == self@[*operation],
                None => !self@.contains_key(*operation),
            },
    {
        self.nodes.get(operation)
    }

    /// Whether the graph holds `node`.
    pub fn contains(&self, node: &u64) -> (r: bool)
        ensures
            r == self@.contains_key(*node),
    {
        self.nodes.contains_key(node)
    }

    /// The nodes that list `operation` among their dependencies, in insertion
    /// order.
    pub fn dependees(&self, operation: &u64) -> (r: Vec<u64>)
        requires
            self.wf(),
        ensures
            r@ == dependees_of(self@, self.keys(), *operation),
    {
        let mut out: Vec<u64> = Vec::new();
        let mut i: usize = 0;
        let ghost pred = |m: u64| self@.contains_key(m) && self@[m].contains(*operation);
        assert(self.order@.take(0).filter(pred) =~= Seq::<u64>::empty());
        while i < self.order.len()
            invariant
                i <= self.order.len(),
                self.wf(),
                pred == |m: u64| self@.contains_key(m) && self@[m].contains(*operation),
                out@ == self.order@.take(i as int).filter(pred),
            decreases self.order.len() - i,
        {
            let k = self.order[i];
            proof {
                self.order@.lemma_take_succ_push(i as int);
                self.order@.take(i as int).lemma_filter_push(k, pred);
                assert(self.order@.contains(k));
            }
            match self.nodes.get(&k) {
                Some(deps) => {
                    if vec_contains(deps, *operation) {
                        out.push(k);
                    }
                },
                None => {},
            }
            i = i + 1;
        }
        assert(self.order@.take(self.order@.len() as int) =~= self.order@);
        out
    }

    /// The nodes that list `child` among their dependencies, in insertion
    /// order.
    pub fn get_parents(&self, child: u64) -> (r: Vec<u64>)
        requires
            self.wf(),
        ensures
            r@ == dependees_of(self@, self.keys(), child),
    {
        self.dependees(&child)
    }

    /// A copy of the dependency list of `parent`; empty if the graph does not
    /// hold `parent`.
    pub fn get_children(&self, parent: u64) -> (r: Vec<u64>)
        ensures
            r@ == if self@.contains_key(parent) {
                self@[parent]
            } else {
                Seq::<u64>::empty()
            },
    {
        match self.nodes.get(&parent) {
            Some(deps) => deps.clone(),
            None => Vec::new(),
        }
    }

    /// Appends `child` to the dependency list of `parent`, which starts empty
    /// if the graph did not hold `parent`.
    pub fn insert_as_child(&mut self, child: u64, parent: u64)
        requires
            old(self).wf(),
        ensures
            final(self).wf(),
            final(self)@ == old(self)@.insert(
                parent,
                if old(self)@.contains_key(parent) {
                    old(self)@[parent].push(child)
                } else {
                    seq![child]
                },
            ),
            final(self).keys() == if old(self)@.contains_key(parent) {
                old(self).keys()
            } else {
                old(self).keys().push(parent)
            },
    {
        let mut deps = match self.nodes.remove(&parent) {
            Some(existing) => existing,
            None => Vec::new(),
        };
        deps.push(child);
        if !self.contains_in_order(parent) {
            self.order.push(parent);
        }
        self.nodes.insert(parent, deps);
        proof {
            let o = old(self).order@;
            if !old(self).nodes@.contains_key(parent) {
                lemma_push_fresh(o, parent);
                assert(deps@ =~= seq![child]);
            }
            assert(self.order@.no_duplicates());
            assert forall|k: u64| self.nodes@.contains_key(k) <==> self.order@.contains(k) by {
                assert(old(self).nodes@.contains_key(k) <==> o.contains(k));
            }
            assert(self@ =~= old(self)@.insert(parent, deps@));
        }
    }

    /// Whether `node` is listed in `order`.
    fn contains_in_order(&self, node: u64) -> (r: bool)
        ensures
            r == self.order@.contains(node),
    {
        vec_contains(&self.order, node)
    }

    /// Splices `new_operation` above `base`: afterwards `new_operation`
    /// depends on `base` alone, and every other node names `new_operation`
    /// in each operand slot in which it named `base`. The dependencies of
    /// `base` are as before, unless `base` named itself.
    pub fn operate_on(&mut self, new_operation: u64, base: u64)
        requires
            old(self).wf(),
            !old(self)@.contains_key(new_operation),
            old(self)@.contains_key(base),
        ensures
            final(self).wf(),
            final(self)@ == operate_on_spec(old(self)@, new_operation, base),
            final(self).keys() == old(self).keys().push(new_operation),
    {
        let mut i: usize = 0;
        while i < self.order.len()
            invariant
                i <= self.order.len(),
                self.order@ == old(self).order@,
                old(self).wf(),
                self.wf(),
                !self.nodes@.contains_key(new_operation),
                forall|j: int|
                    0 <= j < i ==> (#[trigger] self.nodes@[self.order@[j]])@ == replace_all(
                        old(self).nodes@[self.order@[j]]@,
                        base,
                        new_operation,
                    ),
                forall|j: int|
                    i <= j < self.order@.len() ==> (#[trigger] self.nodes@[self.order@[j]])@
                        == old(self).nodes@[self.order@[j]]@,
            decreases self.order.len() - i,
        {
            let k = self.order[i];
            let ghost before = self.nodes@;
            assert(self.order@.contains(k));
            let mut deps = match self.nodes.remove(&k) {
                Some(existing) => existing,
                None => Vec::new(),
            };
            replace_in(&mut deps, base, new_operation);
            self.nodes.insert(k, deps);
            proof {
                assert forall|key: u64| self.nodes@.contains_key(key) <==> self.order@.contains(
                    key,
                ) by {
                    assert(before.contains_key(key) <==> self.order@.contains(key));
                }
                assert forall|j: int| 0 <= j < i + 1 implies (#[trigger] self.nodes@[self.order@[j]])@
                    == replace_all(old(self).nodes@[self.order@[j]]@, base, new_operation) by {
                    if j < i {
                        assert(self.order@[j] != k);
                        assert(self.nodes@[self.order@[j]] == before[self.order@[j]]);
                    }
                }
                assert forall|j: int| i + 1 <= j < self.order@.len() implies (
                #[trigger] self.nodes@[self.order@[j]])@ == old(self).nodes@[self.order@[j]]@ by {
                    assert(self.order@[j] != k);
                    assert(self.nodes@[self.order@[j]] == before[self.order@[j]]);
                }
            }
            i = i + 1;
        }
        let mut only: Vec<u64> = Vec::new();
        only.push(base);
        let ghost mid = self.nodes@;
        self.order.push(new_operation);
        self.nodes.insert(new_operation, only);
        proof {
            let o = old(self).order@;
            assert(only@ =~= seq![base]);
            lemma_push_fresh(o, new_operation);
            assert forall|k: u64| self.nodes@.contains_key(k) <==> self.order@.contains(k) by {
                assert(mid.contains_key(k) <==> o.contains(k));
            }
            assert forall|k: u64| #[trigger]
                self@.contains_key(k) && k != new_operation implies self@[k] == replace_all(
                old(self)@[k],
                base,
                new_operation,
            ) by {
                assert(o.contains(k));
                let j = choose|j: int| 0 <= j < o.len() && o[j] == k;
                assert(mid[o[j]]@ == replace_all(old(self).nodes@[o[j]]@, base, new_operation));
            }
            assert(self@ =~= operate_on_spec(old(self)@, new_operation, base));
        }
    }
}

impl Default for DepGraph {
    fn default() -> (r: Self)
        ensures
            r.wf(),
            r@ == Map::<u64, Seq<u64>>::empty(),
            r.keys() == Seq::<u64>::empty(),
    {
        DepGraph::new()
    }
}

/// After `insert(n, deps)`, the dependency list of `n` is `deps`, and every
/// other node has the list it had.
pub proof fn law_insert_then_depends_on(g: Map<u64, Seq<u64>>, n: u64, deps: Seq<u64>, other: u64)
    ensures
        g.insert(n, deps).contains_key(n),
        g.insert(n, deps)[n] == deps,
        other != n ==> (g.insert(n, deps).contains_key(other) <==> g.contains_key(other)),
        other != n && g.contains_key(other) ==> g.insert(n, deps)[other] == g[other],
{
}

/// The dependees of `n` are exactly the nodes whose dependency list holds
/// `n`, each listed once.
pub proof fn law_dependees(g: Map<u64, Seq<u64>>, order: Seq<u64>, n: u64)
    requires
        order.no_duplicates(),
        forall|k: u64| #[trigger] g.contains_key(k) ==> order.contains(k),
    ensures
        forall|m: u64|
            dependees_of(g, order, n).contains(m) <==> g.contains_key(m) && g[m].contains(n),
        dependees_of(g, order, n).to_set() =~= Set::new(
            |m: u64| g.contains_key(m) && g[m].contains(n),
        ),
        dependees_of(g, order, n).no_duplicates(),
{
    let pred = |m: u64| g.contains_key(m) && g[m].contains(n);
    let found = order.filter(pred);
    assert(found == dependees_of(g, order, n));
    assert forall|m: u64| found.contains(m) <==> g.contains_key(m) && g[m].contains(n) by {
        if found.contains(m) {
            let i = choose|i: int| 0 <= i < found.len() && found[i] == m;
            order.lemma_filter_pred(pred, i);
            assert(pred(m));
        }
        if g.contains_key(m) && g[m].contains(n) {
            assert(order.contains(m));
            let j = choose|j: int| 0 <= j < order.len() && order[j] == m;
            assert(pred(order[j]));
            order.lemma_filter_contains(pred, j);
        }
    }
    lemma_filter_no_duplicates(order, pred);
}

/// After `new` has been spliced above `base`, `new` depends on `base`
/// alone; a node that did not name `base` has the list it had, and so has
/// `base` unless it named itself; and a node that named `base` names `new`
/// in exactly those slots, keeps every other entry in its slot, and no
/// longer names `base`. Splicing `newer` above `new` then gives the chain
/// from `newer` over `new` to `base`.
pub proof fn law_operate_on(g: Map<u64, Seq<u64>>, new: u64, base: u64, newer: u64, other: u64)
    requires
        g.contains_key(base),
        !g.contains_key(new),
        !g.contains_key(newer),
        newer != new,
    ensures
        operate_on_spec(g, new, base)[new] == seq![base],
        !g[base].contains(base) ==> operate_on_spec(g, new, base)[base] == g[base],
        g.contains_key(other) ==> {
            &&& operate_on_spec(g, new, base)[other].len() == g[other].len()
            &&& forall|i: int|
                0 <= i < g[other].len() ==> #[trigger] operate_on_spec(g, new, base)[other][i]
                    == if g[other][i] == base {
                    new
                } else {
                    g[other][i]
                }
            &&& !operate_on_spec(g, new, base)[other].contains(base)
            &&& g[other].contains(base) ==> operate_on_spec(g, new, base)[other].contains(new)
        },
        g.contains_key(other) && !g[other].contains(base) ==> operate_on_spec(g, new, base)[other]
            == g[other],
        operate_on_spec(operate_on_spec(g, new, base), newer, new)[newer] == seq![new],
        operate_on_spec(operate_on_spec(g, new, base), newer, new)[new] == seq![base],
{
    let once = operate_on_spec(g, new, base);
    if g.contains_key(other) {
        let before = g[other];
        let after = once[other];
        assert(after == replace_all(before, base, new));
        assert(!after.contains(base)) by {
            if after.contains(base) {
                let i = choose|i: int| 0 <= i < after.len() && after[i] == base;
                assert(after[i] == if before[i] == base {
                    new
                } else {
                    before[i]
                });
            }
        }
        if before.contains(base) {
            let i = choose|i: int| 0 <= i < before.len() && before[i] == base;
            assert(after[i] == new);
        } else {
            assert(after =~= before);
        }
    }
    if !g[base].contains(base) {
        assert(once[base] =~= g[base]);
    }
    assert(once[new] == seq![base]);
    assert(replace_all(seq![base], new, newer) =~= seq![base]);
}

/// The text that `{:?}` formatting gives for a string: the string between
/// double quotes, with the characters that need it escaped.
pub uninterp spec fn debug_quoted(s: Seq<char>) -> Seq<char>;

/// Formats a string with `format!("{:?}", ..)`, that is by std's `Debug`
/// for `str`. The result depends on the characters of the string alone; the
/// contract names it and says nothing about what it holds.
#[verifier::external_body]
fn debug_quote(s: &String) -> (r: String)
    ensures
        r@ == debug_quoted(s@),
{
    format!("{:?}", s)
}

/// The name of a node in the graph description.
pub open spec fn node_name(k: u64) -> Seq<char> {
    "op_"@ + decimal(k as nat)
}

/// The line of the edge from `k` to its dependency `d`.
pub open spec fn edge_text(k: u64, d: u64) -> Seq<char> {
    "    "@ + node_name(k) + " -> "@ + node_name(d) + ";\n"@
}

/// The lines of the first `m` edges of `k`.
pub open spec fn edges_text(k: u64, deps: Seq<u64>, m: int) -> Seq<char>
    decreases m,
{
    if m <= 0 {
        Seq::empty()
    } else {
        edges_text(k, deps, m - 1) + edge_text(k, deps[m - 1])
    }
}

/// The lines of node `k`: its name with its quoted label, then its edges in
/// operand order.
pub open spec fn node_text(k: u64, deps: Seq<u64>, label: Seq<char>) -> Seq<char> {
    "    "@ + node_name(k) + " [label="@ + debug_quoted(label) + "];\n"@ + edges_text(
        k,
        deps,
        deps.len() as int,
    )
}

/// The lines of the first `n` nodes of `order`.
pub open spec fn nodes_text(
    g: Map<u64, Seq<u64>>,
    order: Seq<u64>,
    labels: Seq<Seq<char>>,
    n: int,
) -> Seq<char>
    decreases n,
{
    if n <= 0 {
        Seq::empty()
    } else {
        nodes_text(g, order, labels, n - 1) + node_text(order[n - 1], g[order[n - 1]], labels[n - 1])
    }
}

/// The description of the graph in the DOT language: the nodes in insertion
/// order, each followed by its edges.
pub open spec fn dot_text(g: Map<u64, Seq<u64>>, order: Seq<u64>, labels: Seq<Seq<char>>) -> Seq<
    char,
> {
    "digraph depsgraph {\n"@ + nodes_text(g, order, labels, order.len() as int) + "}\n"@
}

fn name_of(k: u64) -> (r: String)
    ensures
        r@ == node_name(k),
{
    let mut out = String::from_str("op_");
    let digits = decimal_string(k);
    out.append(digits.as_str());
    out
}

/// The lines of node `k` around a label that is already quoted: its name
/// with the label, then its edges in operand order.
pub fn node_lines_quoted(k: u64, deps: &Vec<u64>, quoted: &String) -> (r: String)
    ensures
        r@ == "    "@ + node_name(k) + " [label="@ + quoted@ + "];\n"@ + edges_text(
            k,
            deps@,
            deps@.len() as int,
        ),
{
    let name = name_of(k);
    let mut out = String::from_str("    ");
    out.append(name.as_str());
    out.append(" [label=");
    out.append(quoted.as_str());
    out.append("];\n");
    let ghost head = out@;
    assert(head =~= "    "@ + node_name(k) + " [label="@ + quoted@ + "];\n"@);
    let mut j: usize = 0;
    while j < deps.len()
        invariant
            j <= deps.len(),
            name@ == node_name(k),
            out@ == head + edges_text(k, deps@, j as int),
        decreases deps.len() - j,
    {
        let target = name_of(deps[j]);
        let ghost before = out@;
        out.append("    ");
        out.append(name.as_str());
        out.append(" -> ");
        out.append(target.as_str());
        out.append(";\n");
        assert(out@ =~= before + edge_text(k, deps@[j as int]));
        assert(out@ =~= head + edges_text(k, deps@, j + 1));
        j = j + 1;
    }
    out
}

/// The lines of node `k` with the label `label`, which is quoted here.
fn node_lines(k: u64, deps: &Vec<u64>, label: &String) -> (r: String)
    ensures
        r@ == node_text(k, deps@, label@),
{
    let quoted = debug_quote(label);
    node_lines_quoted(k, deps, &quoted)
}

impl DepGraph {
    /// Describes the graph in the DOT language, with `labels[i]` as the
    /// label of the node at position `i` of the insertion order.
    pub fn dotgraph_with_labels(&self, labels: &Vec<String>) -> (r: String)
        requires
            self.wf(),
            labels@.len() == self.keys().len(),
        ensures
            r@ == dot_text(self@, self.keys(), texts(labels@)),
    {
        let mut out = String::from_str("digraph depsgraph {\n");
        let ghost head = out@;
        let mut i: usize = 0;
        while i < self.order.len()
            invariant
                i <= self.order.len(),
                self.wf(),
                labels@.len() == self.order@.len(),
                head == "digraph depsgraph {\n"@,
                out@ == head + nodes_text(self@, self.order@, texts(labels@), i as int),
            decreases self.order.len() - i,
        {
            let k = self.order[i];
            assert(self.order@.contains(k));
            let lines = match self.nodes.get(&k) {
                Some(deps) => node_lines(k, deps, &labels[i]),
                None => String::new(),
            };
            out.append(lines.as_str());
            assert(texts(labels@)[i as int] == labels@[i as int]@);
            assert(out@ =~= head + nodes_text(self@, self.order@, texts(labels@), i + 1));
            i = i + 1;
        }
        out.append("}\n");
        out
    }

    /// Describes the graph in the DOT language. The formatter gives each
    /// node its label; it is asked once per node, in insertion order.
    pub fn generate_dotgraph<F: Fn(u64) -> String>(&self, formatter: F) -> (r: String)
        requires
            self.wf(),
            forall|k: u64| self@.contains_key(k) ==> #[trigger] formatter.requires((k,)),
        ensures
            exists|labels: Seq<String>|
                {
                    &&& labels.len() == self.keys().len()
                    &&& forall|i: int|
                        0 <= i < labels.len() ==> formatter.ensures(
                            (self.keys()[i],),
                            #[trigger] labels[i],
                        )
                    &&& r@ == dot_text(self@, self.keys(), texts(labels))
                },
    {
        let mut labels: Vec<String> = Vec::new();
        let mut i: usize = 0;
        while i < self.order.len()
            invariant
                i <= self.order.len(),
                self.wf(),
                forall|k: u64| self@.contains_key(k) ==> #[trigger] formatter.requires((k,)),
                labels@.len() == i,
                forall|j: int|
                    0 <= j < i ==> formatter.ensures((self.order@[j],), #[trigger] labels@[j]),
            decreases self.order.len() - i,
        {
            let k = self.order[i];
            assert(self.order@.contains(k));
            assert(self@.contains_key(k));
            let label = formatter(k);
            labels.push(label);
            i = i + 1;
        }
        self.dotgraph_with_labels(&labels)
    }
}

/// The elements of `s` in the order of their first occurrence.
pub open spec fn distinct(s: Seq<u64>) -> Seq<u64>
    decreases s.len(),
{
    if s.len() == 0 {
        Seq::empty()
    } else if distinct(s.drop_last()).contains(s.last()) {
        distinct(s.drop_last())
    } else {
        distinct(s.drop_last()).push(s.last())
    }
}

/// All dependency lists of the nodes of `order`, one after the other.
pub open spec fn all_children(g: Map<u64, Seq<u64>>, order: Seq<u64>) -> Seq<u64>
    decreases order.len(),
{
    if order.len() == 0 {
        Seq::empty()
    } else {
        all_children(g, order.drop_last()) + g[order.last()]
    }
}

/// How often `c` occurs in `s`.
pub open spec fn count(s: Seq<u64>, c: u64) -> nat
    decreases s.len(),
{
    if s.len() == 0 {
        0
    } else {
        count(s.drop_last(), c) + if s.last() == c {
            1nat
        } else {
            0nat
        }
    }
}

/// `p`, `n` times.
pub open spec fn repeat(p: u64, n: nat) -> Seq<u64> {
    Seq::new(n, |i: int| p)
}

/// The nodes of `order` that depend on `c`, in order, each as often as it
/// lists `c`.
pub open spec fn parents_of(g: Map<u64, Seq<u64>>, order: Seq<u64>, c: u64) -> Seq<u64>
    decreases order.len(),
{
    if order.len() == 0 {
        Seq::empty()
    } else {
        parents_of(g, order.drop_last(), c) + repeat(order.last(), count(g[order.last()], c))
    }
}

/// A sequence holds `c` exactly when it holds it at least once.
pub proof fn lemma_count(s: Seq<u64>, c: u64)
    ensures
        count(s, c) > 0 <==> s.contains(c),
    decreases s.len(),
{
    if s.len() > 0 {
        let rest = s.drop_last();
        lemma_count(rest, c);
        if rest.contains(c) {
            let i = choose|i: int| 0 <= i < rest.len() && rest[i] == c;
            assert(s[i] == c);
        }
        if s.contains(c) && s.last() != c {
            let i = choose|i: int| 0 <= i < s.len() && s[i] == c;
            assert(rest[i] == c);
        }
    }
}

/// Flipping reverses every edge: `p` is listed as a parent of `c` exactly
/// when `p` is a node that depends on `c`.
pub proof fn law_flip_reverses_edges(g: Map<u64, Seq<u64>>, order: Seq<u64>, c: u64, p: u64)
    ensures
        parents_of(g, order, c).contains(p) <==> order.contains(p) && g[p].contains(c),
    decreases order.len(),
{
    if order.len() > 0 {
        let rest = order.drop_last();
        let last = order.last();
        law_flip_reverses_edges(g, rest, c, p);
        lemma_count(g[last], c);
        let a = parents_of(g, rest, c);
        let b = repeat(last, count(g[last], c));
        let all = a + b;
        if all.contains(p) {
            let i = choose|i: int| 0 <= i < all.len() && all[i] == p;
            if i < a.len() {
                assert(a[i] == p);
                let j = choose|j: int| 0 <= j < rest.len() && rest[j] == p;
                assert(order[j] == p);
            } else {
                assert(b[i - a.len()] == p);
                assert(order[order.len() - 1] == p);
            }
        }
        if order.contains(p) && g[p].contains(c) {
            if p == last {
                assert(b[0] == p);
                assert(all[a.len() as int] == p);
            } else {
                let j = choose|j: int| 0 <= j < order.len() && order[j] == p;
                assert(rest[j] == p);
                let i = choose|i: int| 0 <= i < a.len() && a[i] == p;
                assert(all[i] == p);
            }
        }
    }
}

impl DepGraph {
    /// The graph with every edge reversed: each node that something depends
    /// on is mapped to the nodes that depend on it, in insertion order, each
    /// as often as it lists the node. A node that nothing depends on is not
    /// in the flipped graph. The nodes of the flipped graph stand in the
    /// order in which the dependency lists first name them.
    pub fn flip(&self) -> (r: Self)
        requires
            self.wf(),
        ensures
            r.wf(),
            r.keys() == distinct(all_children(self@, self.keys())),
            forall|c: u64| #[trigger]
                r@.contains_key(c) <==> parents_of(self@, self.keys(), c).len() > 0,
            forall|c: u64| #[trigger]
                r@.contains_key(c) ==> r@[c] == parents_of(self@, self.keys(), c),
    {
        let mut out = DepGraph::new();
        let mut i: usize = 0;
        assert(self.order@.take(0) =~= Seq::<u64>::empty());
        while i < self.order.len()
            invariant
                i <= self.order.len(),
                self.wf(),
                out.wf(),
                out.order@ == distinct(all_children(self@, self.order@.take(i as int))),
                forall|c: u64| #[trigger]
                    out@.contains_key(c) <==> parents_of(
                        self@,
                        self.order@.take(i as int),
                        c,
                    ).len() > 0,
                forall|c: u64| #[trigger]
                    out@.contains_key(c) ==> out@[c] == parents_of(
                        self@,
                        self.order@.take(i as int),
                        c,
                    ),
            decreases self.order.len() - i,
        {
            let p = self.order[i];
            let ghost done = self.order@.take(i as int);
            assert(self.order@.contains(p));
            let deps = match self.nodes.get(&p) {
                Some(deps) => deps,
                None => vstd::pervasive::unreached(),
            };
            let mut j: usize = 0;
            let ghost listed = all_children(self@, done);
            assert(deps@.take(0) =~= Seq::<u64>::empty());
            assert(listed + deps@.take(0) =~= listed);
            assert forall|c: u64| parents_of(self@, done, c) + repeat(
                p,
                count(deps@.take(0), c),
            ) =~= parents_of(self@, done, c) by {}
            while j < deps.len()
                invariant
                    j <= deps.len(),
                    out.wf(),
                    deps@ == self@[p],
                    out.order@ == distinct(listed + deps@.take(j as int)),
                    forall|c: u64| #[trigger]
                        out@.contains_key(c) <==> (parents_of(self@, done, c) + repeat(
                            p,
                            count(deps@.take(j as int), c),
                        )).len() > 0,
                    forall|c: u64| #[trigger]
                        out@.contains_key(c) ==> out@[c] == parents_of(self@, done, c) + repeat(
                            p,
                            count(deps@.take(j as int), c),
                        ),
                decreases deps.len() - j,
            {
                let child = deps[j];
                let ghost before = out@;
                out.insert_as_child(p, child);
                proof {
                    assert(deps@.take(j + 1).drop_last() =~= deps@.take(j as int));
                    assert(deps@.take(j + 1).last() == child);
                    assert((listed + deps@.take(j + 1)).drop_last() =~= listed + deps@.take(
                        j as int,
                    ));
                    assert((listed + deps@.take(j + 1)).last() == child);
                    assert forall|c: u64| #[trigger]
                        out@.contains_key(c) implies out@[c] == parents_of(self@, done, c)
                        + repeat(p, count(deps@.take(j + 1), c)) by {
                        let n = count(deps@.take(j as int), c);
                        if c == child {
                            assert(repeat(p, n + 1) =~= repeat(p, n).push(p));
                            assert(out@[c] =~= parents_of(self@, done, c) + repeat(p, n + 1));
                        } else {
                            assert(before.contains_key(c));
                        }
                    }
                    assert forall|c: u64| #[trigger]
                        out@.contains_key(c) <==> (parents_of(self@, done, c) + repeat(
                            p,
                            count(deps@.take(j + 1), c),
                        )).len() > 0 by {
                        if c != child {
                            assert(before.contains_key(c) <==> out@.contains_key(c));
                        }
                    }
                }
                j = j + 1;
            }
            proof {
                assert(deps@.take(deps@.len() as int) =~= deps@);
                assert(self.order@.take(i + 1).drop_last() =~= done);
                assert(self.order@.take(i + 1).last() == p);
            }
            i = i + 1;
        }
        assert(self.order@.take(self.order@.len() as int) =~= self.order@);
        out
    }
}

/// The state of a traversal: the nodes still to search, first in first out;
/// the nodes searched; and the nodes found so far, each once.
pub struct Walk {
    pub queue: Seq<u64>,
    pub searched: Set<u64>,
    pub found: Seq<u64>,
}

/// The dependency list of `k`, empty if the graph does not hold `k`.
pub open spec fn children(g: Map<u64, Seq<u64>>, k: u64) -> Seq<u64> {
    if g.contains_key(k) {
        g[k]
    } else {
        Seq::empty()
    }
}

/// The traversal after the first `m` of `kids` have been looked at: one
/// that was found before is passed over; any other is found now, and joins
/// the queue unless it was searched or is waiting already.
pub open spec fn visit(w: Walk, kids: Seq<u64>, m: int) -> Walk
    decreases m,
{
    if m <= 0 {
        w
    } else {
        let prev = visit(w, kids, m - 1);
        let c = kids[m - 1];
        if prev.found.contains(c) {
            prev
        } else {
            Walk {
                queue: if !prev.searched.contains(c) && !prev.queue.contains(c) {
                    prev.queue.push(c)
                } else {
                    prev.queue
                },
                searched: prev.searched,
                found: prev.found.push(c),
            }
        }
    }
}

/// One step of the traversal: the node at the front of the queue is
/// searched, and its dependencies are looked at in operand order. With an
/// empty queue nothing changes.
pub open spec fn walk_step(g: Map<u64, Seq<u64>>, w: Walk) -> Walk {
    if w.queue.len() == 0 {
        w
    } else {
        visit(
            Walk {
                queue: w.queue.drop_first(),
                searched: w.searched.insert(w.queue[0]),
                found: w.found,
            },
            children(g, w.queue[0]),
            children(g, w.queue[0]).len() as int,
        )
    }
}

/// `n` steps of the traversal.
pub open spec fn walk(g: Map<u64, Seq<u64>>, w: Walk, n: nat) -> Walk
    decreases n,
{
    if n == 0 {
        w
    } else {
        walk_step(g, walk(g, w, (n - 1) as nat))
    }
}

/// The traversal that starts at `start`.
pub open spec fn walk_from(start: u64) -> Walk {
    Walk { queue: seq![start], searched: Set::empty(), found: Seq::empty() }
}

/// A traversal that has come to rest stays as it is, so that what it has
/// found does not depend on how many steps it was given.
pub proof fn law_rested_walk_stays(g: Map<u64, Seq<u64>>, w: Walk, n: nat, m: nat)
    requires
        walk(g, w, n).queue.len() == 0,
        n <= m,
    ensures
        walk(g, w, m) == walk(g, w, n),
    decreases m,
{
    if m > n {
        law_rested_walk_stays(g, w, n, (m - 1) as nat);
    }
}

/// Every node of `path` but the last lists the next one as a dependency.
pub open spec fn is_chain(g: Map<u64, Seq<u64>>, path: Seq<u64>) -> bool {
    forall|i: int|
        0 <= i < path.len() - 1 ==> g.contains_key(#[trigger] path[i]) && g[path[i]].contains(
            path[i + 1],
        )
}

/// `n` is a dependency of `start`, directly or through other nodes.
pub open spec fn descends(g: Map<u64, Seq<u64>>, start: u64, n: u64) -> bool {
    exists|path: Seq<u64>|
        #![trigger is_chain(g, path)]
        path.len() >= 2 && path[0] == start && path.last() == n && is_chain(g, path)
}

/// What looking at dependencies does: the searched nodes stay; found are
/// what was found before and what was looked at, without repeats; and the
/// queue gains those looked at that were neither found nor searched before.
pub proof fn lemma_visit(w: Walk, kids: Seq<u64>, m: int)
    requires
        0 <= m <= kids.len(),
    ensures
        visit(w, kids, m).searched == w.searched,
        forall|x: u64|
            #![trigger visit(w, kids, m).found.contains(x)]
            visit(w, kids, m).found.contains(x) <==> w.found.contains(x) || kids.take(
                m,
            ).contains(x),
        w.found.no_duplicates() ==> visit(w, kids, m).found.no_duplicates(),
        forall|x: u64|
            #![trigger visit(w, kids, m).queue.contains(x)]
            visit(w, kids, m).queue.contains(x) <==> w.queue.contains(x) || (kids.take(
                m,
            ).contains(x) && !w.found.contains(x) && !w.searched.contains(x)),
    decreases m,
{
    if m <= 0 {
        assert(kids.take(0) =~= Seq::<u64>::empty());
    } else {
        lemma_visit(w, kids, m - 1);
        let prev = visit(w, kids, m - 1);
        let next = visit(w, kids, m);
        let c = kids[m - 1];
        let now = kids.take(m);
        let earlier = kids.take(m - 1);
        assert(now =~= earlier.push(c));
        lemma_push_contains(earlier, c);
        assert forall|x: u64| now.contains(x) <==> earlier.contains(x) || x == c by {}
        if !prev.found.contains(c) {
            lemma_push_contains(prev.found, c);
            if w.found.no_duplicates() {
                lemma_push_fresh(prev.found, c);
            }
            if !prev.searched.contains(c) && !prev.queue.contains(c) {
                lemma_push_contains(prev.queue, c);
            }
        }
        assert forall|x: u64|
            #![trigger next.found.contains(x)]
            next.found.contains(x) <==> w.found.contains(x) || now.contains(x) by {
            assert(prev.found.contains(x) <==> w.found.contains(x) || earlier.contains(x));
        }
        assert forall|x: u64|
            #![trigger next.queue.contains(x)]
            next.queue.contains(x) <==> w.queue.contains(x) || (now.contains(x)
                && !w.found.contains(x) && !w.searched.contains(x)) by {
            assert(prev.queue.contains(x) <==> w.queue.contains(x) || (earlier.contains(x)
                && !w.found.contains(x) && !w.searched.contains(x)));
            assert(prev.found.contains(c) <==> w.found.contains(c) || earlier.contains(c));
            assert(prev.queue.contains(c) <==> w.queue.contains(c) || (earlier.contains(c)
                && !w.found.contains(c) && !w.searched.contains(c)));
        }
    }
}

/// What a traversal from `start` keeps true between steps: whatever is
/// searched or waiting is `start` or descends from it; `start` is searched
/// or waiting; whatever is found descends from `start`, is searched or
/// waiting, and is found once; and every dependency of a searched node is
/// found.
pub open spec fn walk_inv(g: Map<u64, Seq<u64>>, start: u64, w: Walk) -> bool {
    &&& forall|s: u64|
        #![trigger w.searched.contains(s)]
        #![trigger w.queue.contains(s)]
        w.searched.contains(s) || w.queue.contains(s) ==> s == start || descends(g, start, s)
    &&& w.searched.contains(start) || w.queue.contains(start)
    &&& forall|x: u64|
        #[trigger] w.found.contains(x) ==> descends(g, start, x) && (w.searched.contains(x)
            || w.queue.contains(x))
    &&& w.found.no_duplicates()
    &&& forall|s: u64, c: u64|
        #[trigger] w.searched.contains(s) && #[trigger] children(g, s).contains(c)
            ==> w.found.contains(c)
}

/// A dependency of `start`, or of a node that descends from `start`,
/// descends from `start`.
pub proof fn lemma_descends_step(g: Map<u64, Seq<u64>>, start: u64, s: u64, c: u64)
    requires
        s == start || descends(g, start, s),
        children(g, s).contains(c),
    ensures
        descends(g, start, c),
{
    assert(g.contains_key(s)) by {
        if !g.contains_key(s) {
            let i = choose|i: int| 0 <= i < children(g, s).len() && children(g, s)[i] == c;
        }
    }
    if s == start {
        let path = seq![start, c];
        assert(is_chain(g, path));
        assert(path.last() == c);
    } else {
        let path = choose|path: Seq<u64>|
            #![trigger is_chain(g, path)]
            path.len() >= 2 && path[0] == start && path.last() == s && is_chain(g, path);
        let longer = path.push(c);
        assert forall|i: int| 0 <= i < longer.len() - 1 implies g.contains_key(
            #[trigger] longer[i],
        ) && g[longer[i]].contains(longer[i + 1]) by {
            if i < path.len() - 1 {
                assert(longer[i] == path[i]);
                assert(longer[i + 1] == path[i + 1]);
            }
        }
        assert(is_chain(g, longer));
        assert(longer[0] == start && longer.last() == c);
    }
}

/// A step of the traversal keeps [`walk_inv`].
pub proof fn lemma_walk_step(g: Map<u64, Seq<u64>>, start: u64, w: Walk)
    requires
        walk_inv(g, start, w),
    ensures
        walk_inv(g, start, walk_step(g, w)),
{
    if w.queue.len() > 0 {
        let current = w.queue[0];
        let kids = children(g, current);
        let entered = Walk {
            queue: w.queue.drop_first(),
            searched: w.searched.insert(current),
            found: w.found,
        };
        let next = walk_step(g, w);
        lemma_visit(entered, kids, kids.len() as int);
        assert(kids.take(kids.len() as int) =~= kids);
        assert(w.queue.contains(current));
        assert forall|x: u64| w.queue.contains(x) implies entered.queue.contains(x) || x
            == current by {
            let i = choose|i: int| 0 <= i < w.queue.len() && w.queue[i] == x;
            if i > 0 {
                assert(entered.queue[i - 1] == x);
            }
        }
        assert forall|x: u64| entered.queue.contains(x) implies w.queue.contains(x) by {
            let i = choose|i: int| 0 <= i < entered.queue.len() && entered.queue[i] == x;
            assert(w.queue[i + 1] == x);
        }
        assert(next.searched == w.searched.insert(current));
        assert forall|s: u64|
            #![trigger next.searched.contains(s)]
            #![trigger next.queue.contains(s)]
            next.searched.contains(s) || next.queue.contains(s) implies s == start || descends(
            g,
            start,
            s,
        ) by {
            if next.queue.contains(s) && !entered.queue.contains(s) {
                assert(kids.contains(s));
                lemma_descends_step(g, start, current, s);
            }
        }
        assert forall|x: u64| #[trigger] next.found.contains(x) implies descends(g, start, x) && (
        next.searched.contains(x) || next.queue.contains(x)) by {
            assert(next.queue.contains(x) <==> entered.queue.contains(x) || (kids.contains(x)
                && !entered.found.contains(x) && !entered.searched.contains(x)));
            if w.found.contains(x) {
                assert(w.searched.contains(x) || w.queue.contains(x));
                if w.queue.contains(x) {
                    assert(entered.queue.contains(x) || x == current);
                }
            } else {
                assert(kids.contains(x));
                lemma_descends_step(g, start, current, x);
            }
        }
        assert forall|s: u64, c: u64|
            #[trigger] next.searched.contains(s) && #[trigger] children(g, s).contains(
                c,
            ) implies next.found.contains(c) by {
            assert(next.found.contains(c) <==> w.found.contains(c) || kids.contains(c));
            if s != current {
                assert(w.searched.contains(s));
            }
        }
        assert(next.searched.contains(start) || next.queue.contains(start)) by {
            assert(next.queue.contains(start) <==> entered.queue.contains(start) || (
            kids.contains(start) && !entered.found.contains(start)
                && !entered.searched.contains(start)));
            if w.queue.contains(start) {
                assert(entered.queue.contains(start) || start == current);
            }
        }
    }
}

/// Every state of a traversal from `start` satisfies [`walk_inv`].
pub proof fn lemma_walk(g: Map<u64, Seq<u64>>, start: u64, n: nat)
    ensures
        walk_inv(g, start, walk(g, walk_from(start), n)),
    decreases n,
{
    if n == 0 {
        let w = walk_from(start);
        assert(w.queue[0] == start);
        assert forall|s: u64| w.queue.contains(s) implies s == start by {
            let i = choose|i: int| 0 <= i < w.queue.len() && w.queue[i] == s;
        }
    } else {
        lemma_walk(g, start, (n - 1) as nat);
        lemma_walk_step(g, start, walk(g, walk_from(start), (n - 1) as nat));
    }
}

/// A traversal that has come to rest has found exactly the nodes that
/// descend from its start, each once.
pub proof fn law_walk_finds_descendants(g: Map<u64, Seq<u64>>, start: u64, n: nat, x: u64)
    requires
        walk(g, walk_from(start), n).queue.len() == 0,
    ensures
        walk(g, walk_from(start), n).found.contains(x) <==> descends(g, start, x),
        walk(g, walk_from(start), n).found.no_duplicates(),
{
    let w = walk(g, walk_from(start), n);
    lemma_walk(g, start, n);
    assert forall|s: u64| !w.queue.contains(s) by {
        if w.queue.contains(s) {
            let i = choose|i: int| 0 <= i < w.queue.len() && w.queue[i] == s;
        }
    }
    if descends(g, start, x) {
        let path = choose|path: Seq<u64>|
            #![trigger is_chain(g, path)]
            path.len() >= 2 && path[0] == start && path.last() == x && is_chain(g, path);
        lemma_chain_is_found(g, start, w, path, path.len() - 1);
    }
}

/// At rest, every node of a chain from `start` is searched, and every node
/// after the first is found.
proof fn lemma_chain_is_found(g: Map<u64, Seq<u64>>, start: u64, w: Walk, path: Seq<u64>, k: int)
    requires
        walk_inv(g, start, w),
        forall|s: u64| !w.queue.contains(s),
        is_chain(g, path),
        path.len() >= 1,
        path[0] == start,
        0 <= k < path.len(),
    ensures
        w.searched.contains(path[k]),
        k > 0 ==> w.found.contains(path[k]),
    decreases k,
{
    if k > 0 {
        lemma_chain_is_found(g, start, w, path, k - 1);
        assert(g.contains_key(path[k - 1]) && g[path[k - 1]].contains(path[k - 1 + 1]));
        assert(children(g, path[k - 1]).contains(path[k]));
        assert(w.found.contains(path[k]));
    }
}

proof fn lemma_all_children(g: Map<u64, Seq<u64>>, order: Seq<u64>, k: u64, d: u64)
    requires
        order.contains(k),
        g[k].contains(d),
    ensures
        all_children(g, order).contains(d),
    decreases order.len(),
{
    let rest = order.drop_last();
    let all = all_children(g, order);
    if order.last() == k {
        let i = choose|i: int| 0 <= i < g[k].len() && g[k][i] == d;
        assert(all[all_children(g, rest).len() + i] == d);
    } else {
        let j = choose|j: int| 0 <= j < order.len() && order[j] == k;
        assert(rest[j] == k);
        lemma_all_children(g, rest, k, d);
        let i = choose|i: int| 0 <= i < all_children(g, rest).len() && all_children(g, rest)[i] == d;
        assert(all[i] == d);
    }
}

impl DepGraph {
    /// Every node that a traversal from `start` can meet: `start` and all
    /// listed dependencies.
    pub open spec fn universe(&self, start: u64) -> Set<u64> {
        (seq![start] + all_children(self@, self.keys())).to_set()
    }

    /// The transitive dependencies of `start`, breadth first: the
    /// dependencies of `start` in operand order, then those of each node
    /// found, in the order in which the nodes were found. Every node that
    /// descends from `start` is listed once, where it is first met, and no
    /// other node is listed; `start` itself is listed only if it lies on a
    /// cycle. Cycles do no harm.
    pub fn get_children_recursive_breadth_first(&self, start: u64) -> (r: Vec<u64>)
        requires
            self.wf(),
        ensures
            exists|n: nat|
                (#[trigger] walk(self@, walk_from(start), n)).queue.len() == 0 && r@ == walk(
                    self@,
                    walk_from(start),
                    n,
                ).found,
            r@.no_duplicates(),
            forall|x: u64| r@.contains(x) <==> descends(self@, start, x),
    {
        broadcast use vstd::seq_lib::seq_to_set_is_finite;

        let mut to_search: Vec<u64> = Vec::new();
        to_search.push(start);
        let mut all: Vec<u64> = Vec::new();
        let mut searched: HashSet<u64> = HashSet::new();
        let ghost g = self@;
        let ghost space = self.universe(start);
        let ghost mut steps: nat = 0;
        proof {
            assert(to_search@ =~= seq![start]);
            assert((seq![start] + all_children(g, self.keys()))[0] == start);
            assert(space.contains(start));
        }
        while to_search.len() > 0
            invariant
                self.wf(),
                g == self@,
                space == self.universe(start),
                space.finite(),
                walk(g, walk_from(start), steps) == (Walk {
                    queue: to_search@,
                    searched: searched@,
                    found: all@,
                }),
                to_search@.no_duplicates(),
                forall|i: int|
                    0 <= i < to_search@.len() ==> !searched@.contains(#[trigger] to_search@[i])
                        && space.contains(to_search@[i]),
                searched@.subset_of(space),
            decreases space.len() - searched@.len(),
        {
            let ghost before = Walk { queue: to_search@, searched: searched@, found: all@ };
            let ghost was = searched@;
            let current = to_search.remove(0);
            searched.insert(current);
            proof {
                vstd::set_lib::lemma_len_subset(searched@, space);
                assert(before.queue[0] == current);
                assert(!was.contains(current));
                assert(to_search@ =~= before.queue.drop_first());
                assert forall|i: int| 0 <= i < to_search@.len() implies !searched@.contains(
                    #[trigger] to_search@[i],
                ) && space.contains(to_search@[i]) by {
                    assert(to_search@[i] == before.queue[i + 1]);
                    assert(before.queue[i + 1] != before.queue[0]);
                }
                assert forall|i: int, j: int|
                    0 <= i < to_search@.len() && 0 <= j < to_search@.len() && i
                        != j implies to_search@[i] != to_search@[j] by {
                    assert(to_search@[i] == before.queue[i + 1]);
                    assert(to_search@[j] == before.queue[j + 1]);
                }
            }
            let ghost entered = Walk { queue: to_search@, searched: searched@, found: all@ };
            match self.nodes.get(&current) {
                Some(kids) => {
                    let mut j: usize = 0;
                    while j < kids.len()
                        invariant
                            j <= kids.len(),
                            self.wf(),
                            g == self@,
                            space == self.universe(start),
                            kids@ == children(g, current),
                            g.contains_key(current),
                            visit(entered, kids@, j as int) == (Walk {
                                queue: to_search@,
                                searched: searched@,
                                found: all@,
                            }),
                            to_search@.no_duplicates(),
                            forall|i: int|
                                0 <= i < to_search@.len() ==> !searched@.contains(
                                    #[trigger] to_search@[i],
                                ) && space.contains(to_search@[i]),
                        decreases kids.len() - j,
                    {
                        let child = kids[j];
                        if !vec_contains(&all, child) {
                            all.push(child);
                            if !searched.contains(&child) && !vec_contains(&to_search, child) {
                                proof {
                                    lemma_push_fresh(to_search@, child);
                                    assert(self.order@.contains(current));
                                    assert(g[current].contains(child));
                                    lemma_all_children(g, self.keys(), current, child);
                                    let rest = all_children(g, self.keys());
                                    let i = choose|i: int| 0 <= i < rest.len() && rest[i] == child;
                                    assert((seq![start] + rest)[i + 1] == child);
                                }
                                to_search.push(child);
                            }
                        }
                        j = j + 1;
                    }
                },
                None => {},
            }
            proof {
                assert(walk_step(g, before) == (Walk {
                    queue: to_search@,
                    searched: searched@,
                    found: all@,
                }));
                steps = steps + 1;
            }
        }
        proof {
            assert forall|x: u64| all@.contains(x) <==> descends(g, start, x) by {
                law_walk_finds_descendants(g, start, steps, x);
            }
            law_walk_finds_descendants(g, start, steps, start);
        }
        all
    }
}

} // verus!
