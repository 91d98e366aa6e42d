//! The solve-time graph and its recursive, memoized, cycle-safe solver.
//!
//! One node stands for each fully-qualified parameter name the query touches.
//! A node carries the alternatives that can derive it (`WayToGet`, one per
//! rule targeting it, in registration order), the declared default of its
//! parameter, and its evaluation state.  Evaluation is depth-first: the first
//! alternative whose arguments all resolve and whose relation invocation
//! succeeds decides the node; a node re-entered while in progress counts as a
//! failed argument, which breaks cycles; a node with no successful
//! alternative adopts its declared default or fails, and failure is local to
//! the node.

use vstd::prelude::*;
use vstd::string::*;

use crate::model::KnowledgeBase;
use crate::model::Parameter;
use crate::model::Rule;
use crate::values::clone_value;
use crate::KnowledgeBaseError;

verus! {

/// The narrow capability interface of the external expression evaluator.
///
/// The engine assumes only a JSON-compatible calling convention: sources can
/// be validated and registered, and a registered function can be invoked by
/// name on ordered values.  Nothing is assumed of the answers; whatever an
/// implementation returns, the solver keeps its contract.
pub trait Evaluator {
    /// Validates and registers the source text of one function, reporting a
    /// diagnostic when it does not compile.
    fn compile(&mut self, source: &str) -> Result<(), String>;

    /// Invokes a registered function by name on ordered argument values;
    /// reports nothing when the function is unknown or evaluation fails.
    fn call(&mut self, fun_name: &str, args: Vec<serde_json::Value>) -> Option<serde_json::Value>;
}

/// One alternative derivation of a node: a relation name and the arena
/// indices of the nodes holding its ordered arguments.
pub struct WayToGet {
    pub fun_name: String,
    pub args: Vec<usize>,
}

/// The evaluation state of a node within one solve call.
pub enum NodeState {
    /// Not seeded and not yet evaluated.
    Unresolved,
    /// An evaluation of this node is on the recursion path; meeting it again
    /// would be a cycle.
    InProgress,
    /// Seeded as known, or computed; terminal and memoized.
    Resolved(serde_json::Value),
    /// No alternative succeeded and no default was declared; terminal for
    /// this solve call.
    Failed,
}

/// One graph node: a fully-qualified parameter name, the declared default of
/// its parameter, its alternatives in rule-registration order, and its state.
pub struct Node {
    pub full_name: String,
    pub default: Option<serde_json::Value>,
    pub wtg: Vec<WayToGet>,
    pub state: NodeState,
}

/// The ephemeral solve-time graph: a node arena, the indices of the query
/// targets, and the sources of the relations the assembled rules reference.
pub struct Graph {
    pub nodes: Vec<Node>,
    pub targets: Vec<usize>,
    pub sources: Vec<String>,
}

/// How many nodes are under evaluation on the current recursion path.
pub open spec fn ip_count(nodes: Seq<Node>) -> nat
    decreases nodes.len(),
{
    if nodes.len() == 0 {
        0
    } else {
        ip_count(nodes.drop_last()) + (if nodes.last().state is InProgress {
            1nat
        } else {
            0nat
        })
    }
}

proof fn lemma_ip_count_le(nodes: Seq<Node>)
    ensures
        ip_count(nodes) <= nodes.len(),
    decreases nodes.len(),
{
    if nodes.len() > 0 {
        lemma_ip_count_le(nodes.drop_last());
    }
}

proof fn lemma_ip_count_update(nodes: Seq<Node>, i: int, v: Node)
    requires
        0 <= i < nodes.len(),
    ensures
        ip_count(nodes.update(i, v)) + (if nodes[i].state is InProgress {
            1nat
        } else {
            0nat
        }) == ip_count(nodes) + (if v.state is InProgress {
            1nat
        } else {
            0nat
        }),
    decreases nodes.len(),
{
    let u = nodes.update(i, v);
    if i == nodes.len() - 1 {
        assert(u.drop_last() =~= nodes.drop_last());
        assert(u.last() == v);
    } else {
        assert(u.drop_last() =~= nodes.drop_last().update(i, v));
        assert(u.last() == nodes.last());
        lemma_ip_count_update(nodes.drop_last(), i, v);
    }
}

proof fn lemma_ip_count_pointwise(a: Seq<Node>, b: Seq<Node>)
    requires
        a.len() == b.len(),
        forall|i: int|
            0 <= i < a.len() ==> ((a[i].state is InProgress) <==> ((#[trigger] b[i]).state
                is InProgress)),
    ensures
        ip_count(a) == ip_count(b),
    decreases a.len(),
{
    if a.len() > 0 {
        assert(forall|i: int|
            0 <= i < a.len() - 1 ==> a.drop_last()[i] == a[i] && b.drop_last()[i]
                == (#[trigger] b[i]));
        lemma_ip_count_pointwise(a.drop_last(), b.drop_last());
        assert(a.last() == a[a.len() - 1]);
        assert(b.last() == b[a.len() - 1]);
    }
}

/// The two graphs differ at most in node states: names, defaults,
/// alternatives, targets and sources are the same.
pub open spec fn same_shape(a: Graph, b: Graph) -> bool {
    &&& b.nodes@.len() == a.nodes@.len()
    &&& forall|i: int|
        0 <= i < a.nodes@.len() ==> {
            &&& (#[trigger] b.nodes@[i]).full_name == a.nodes@[i].full_name
            &&& b.nodes@[i].default == a.nodes@[i].default
            &&& b.nodes@[i].wtg@ == a.nodes@[i].wtg@
        }
    &&& b.targets@ == a.targets@
    &&& b.sources@ == a.sources@
}

/// Node states only move along `Unresolved -> InProgress -> Resolved/Failed`:
/// a resolved node keeps its value, a failed node stays failed, and the
/// recursion path is restored on return.
pub open spec fn states_evolve(a: Graph, b: Graph) -> bool {
    forall|i: int|
        0 <= i < a.nodes@.len() ==> {
            &&& (a.nodes@[i].state is Resolved ==> (#[trigger] b.nodes@[i]).state
                == a.nodes@[i].state)
            &&& (a.nodes@[i].state is Failed ==> b.nodes@[i].state is Failed)
            &&& ((a.nodes@[i].state is InProgress) <==> (b.nodes@[i].state is InProgress))
        }
}

/// The value of the last `known` entry naming this parameter, if any: later
/// entries overwrite earlier ones.
pub open spec fn last_known(
    kb: KnowledgeBase,
    known: Seq<(Parameter, serde_json::Value)>,
    name: Seq<char>,
) -> Option<serde_json::Value>
    decreases known.len(),
{
    if known.len() == 0 {
        None
    } else if kb.params@[known.last().0.idx as int].full_name@ == name {
        Some(known.last().1)
    } else {
        last_known(kb, known.drop_last(), name)
    }
}

/// The rules of this list whose target parameter bears the given full name,
/// in registration order.
pub open spec fn rules_targeting(kb: KnowledgeBase, rules: Seq<Rule>, name: Seq<char>) -> Seq<Rule>
    decreases rules.len(),
{
    if rules.len() == 0 {
        Seq::empty()
    } else {
        let pre = rules_targeting(kb, rules.drop_last(), name);
        if kb.params@[rules.last().target.idx as int].full_name@ == name {
            pre.push(rules.last())
        } else {
            pre
        }
    }
}

/// Node `i`'s alternatives are exactly the rules targeting its name, in
/// registration order: same relation name, and argument nodes bearing the
/// rule's argument parameter names in the same order.
pub open spec fn wtg_matches(g: Graph, kb: KnowledgeBase, rules: Seq<Rule>, i: int) -> bool {
    let rt = rules_targeting(kb, rules, g.nodes@[i].full_name@);
    &&& g.nodes@[i].wtg@.len() == rt.len()
    &&& forall|a: int|
        0 <= a < rt.len() ==> {
            &&& (#[trigger] g.nodes@[i].wtg@[a]).fun_name@ == kb.relations@[rt[a].relation.idx as int].name@
            &&& g.nodes@[i].wtg@[a].args@.len() == rt[a].args@.len()
            &&& forall|b: int|
                0 <= b < rt[a].args@.len() ==> (#[trigger] g.nodes@[g.nodes@[i].wtg@[a].args@[b] as int].full_name@)
                    == kb.params@[rt[a].args@[b].idx as int].full_name@
        }
}

/// Every node's alternatives mirror the rule list.
pub open spec fn graph_matches_rules(g: Graph, kb: KnowledgeBase, rules: Seq<Rule>) -> bool {
    forall|i: int| 0 <= i < g.nodes@.len() ==> #[trigger] wtg_matches(g, kb, rules, i)
}

/// Every node is resolved to the last known value of its name, or unresolved
/// when no known value bears it.
pub open spec fn seeded_from(
    g: Graph,
    kb: KnowledgeBase,
    known: Seq<(Parameter, serde_json::Value)>,
) -> bool {
    forall|i: int|
        0 <= i < g.nodes@.len() ==> ((#[trigger] g.nodes@[i]).state == (
        match last_known(kb, known, g.nodes@[i].full_name@) {
            Some(v) => NodeState::Resolved(v),
            None => NodeState::Unresolved,
        }))
}

/// Every node's default is the declared default of a parameter bearing the
/// node's name.
pub open spec fn defaults_from_params(g: Graph, kb: KnowledgeBase) -> bool {
    forall|i: int|
        0 <= i < g.nodes@.len() ==> exists|p: int|
            0 <= p < kb.params@.len() && (#[trigger] kb.params@[p].full_name@) == (
            #[trigger] g.nodes@[i]).full_name@ && g.nodes@[i].default == kb.params@[p].default
}

proof fn lemma_last_known_absent(
    kb: KnowledgeBase,
    known: Seq<(Parameter, serde_json::Value)>,
    name: Seq<char>,
)
    requires
        forall|k: int|
            0 <= k < known.len() ==> kb.params@[((#[trigger] known[k]).0.idx) as int].full_name@
                != name,
    ensures
        last_known(kb, known, name) is None,
    decreases known.len(),
{
    if known.len() > 0 {
        assert(known.last() == known[known.len() - 1]);
        assert(forall|k: int| 0 <= k < known.len() - 1 ==> (#[trigger] known.drop_last()[k]) == known[k]);
        lemma_last_known_absent(kb, known.drop_last(), name);
    }
}

proof fn lemma_rules_targeting_absent(kb: KnowledgeBase, rules: Seq<Rule>, name: Seq<char>)
    requires
        forall|r: int|
            0 <= r < rules.len() ==> kb.params@[((#[trigger] rules[r]).target.idx) as int].full_name@
                != name,
    ensures
        rules_targeting(kb, rules, name).len() == 0,
    decreases rules.len(),
{
    if rules.len() > 0 {
        assert(rules.last() == rules[rules.len() - 1]);
        assert(forall|r: int| 0 <= r < rules.len() - 1 ==> (#[trigger] rules.drop_last()[r]) == rules[r]);
        lemma_rules_targeting_absent(kb, rules.drop_last(), name);
    }
}

/// Every requested target (up to `upto`) has a target node of its name.
pub open spec fn targets_cover(g: Graph, kb: KnowledgeBase, find: Seq<Parameter>, upto: int) -> bool {
    forall|t2: int|
        0 <= t2 < upto ==> exists|u: int|
            0 <= u < g.targets@.len() && g.nodes@[g.targets@[u] as int].full_name@
                == kb.params@[((#[trigger] find[t2]).idx) as int].full_name@
}

/// Every target node bears the name of some requested parameter.
pub open spec fn targets_from(g: Graph, kb: KnowledgeBase, find: Seq<Parameter>) -> bool {
    forall|u: int|
        0 <= u < g.targets@.len() ==> exists|t2: int|
            0 <= t2 < find.len() && g.nodes@[(#[trigger] g.targets@[u]) as int].full_name@
                == kb.params@[find[t2].idx as int].full_name@
}

/// Every collected source is the code of some registered relation.
pub open spec fn sources_from_relations(sources: Seq<String>, kb: KnowledgeBase) -> bool {
    forall|s: int|
        0 <= s < sources.len() ==> exists|ri: int|
            0 <= ri < kb.relations@.len() && (#[trigger] sources[s])@ == kb.relations@[ri].code@
}

/// No source text is collected twice.
pub open spec fn sources_distinct(sources: Seq<String>) -> bool {
    forall|s1: int, s2: int|
        #![trigger sources[s1], sources[s2]]
        0 <= s1 < sources.len() && 0 <= s2 < sources.len() && s1 != s2 ==> sources[s1]@
            != sources[s2]@
}

/// The code of each rule's relation (up to rule `upto`) is collected.
pub open spec fn sources_cover(sources: Seq<String>, kb: KnowledgeBase, upto: int) -> bool {
    forall|r2: int|
        0 <= r2 < upto ==> exists|s: int|
            0 <= s < sources.len() && sources[s]@ == kb.relations@[((
            #[trigger] kb.rules@[r2]).relation.idx) as int].code@
}

proof fn lemma_graph_facts_same_nodes(
    a: Graph,
    b: Graph,
    kb: KnowledgeBase,
    known_values: Seq<(Parameter, serde_json::Value)>,
    values_to_find: Seq<Parameter>,
    rules: Seq<Rule>,
)
    requires
        b.nodes@ == a.nodes@,
        b.targets@ == a.targets@,
        a.node_names_unique(),
        a.wf(),
        defaults_from_params(a, kb),
        seeded_from(a, kb, known_values),
        graph_matches_rules(a, kb, rules),
        targets_cover(a, kb, values_to_find, values_to_find.len() as int),
        targets_from(a, kb, values_to_find),
        forall|k2: int|
            0 <= k2 < known_values.len() ==> a.has_node(
                kb.params@[((#[trigger] known_values[k2]).0.idx) as int].full_name@,
            ),
    ensures
        b.node_names_unique(),
        b.wf(),
        defaults_from_params(b, kb),
        seeded_from(b, kb, known_values),
        graph_matches_rules(b, kb, rules),
        targets_cover(b, kb, values_to_find, values_to_find.len() as int),
        targets_from(b, kb, values_to_find),
        forall|k2: int|
            0 <= k2 < known_values.len() ==> b.has_node(
                kb.params@[((#[trigger] known_values[k2]).0.idx) as int].full_name@,
            ),
{
    assert forall|i: int| 0 <= i < b.nodes@.len() implies #[trigger] b.node_wf(i) by {
        assert(a.node_wf(i));
    }
    assert forall|i: int| 0 <= i < b.nodes@.len() implies #[trigger] wtg_matches(
        b,
        kb,
        rules,
        i,
    ) by {
        assert(wtg_matches(a, kb, rules, i));
        let rt = rules_targeting(kb, rules, b.nodes@[i].full_name@);
        assert forall|x: int| 0 <= x < rt.len() implies {
            &&& (#[trigger] b.nodes@[i].wtg@[x]).fun_name@ == kb.relations@[rt[x].relation.idx as int].name@
            &&& b.nodes@[i].wtg@[x].args@.len() == rt[x].args@.len()
            &&& forall|y: int|
                0 <= y < rt[x].args@.len() ==> (#[trigger] b.nodes@[b.nodes@[i].wtg@[x].args@[y] as int].full_name@)
                    == kb.params@[rt[x].args@[y].idx as int].full_name@
        } by {
            assert(a.nodes@[i].wtg@[x].fun_name@ == kb.relations@[rt[x].relation.idx as int].name@);
        }
    }
    assert forall|t2: int|
        0 <= t2 < values_to_find.len() implies exists|u: int|
            0 <= u < b.targets@.len() && b.nodes@[b.targets@[u] as int].full_name@
                == kb.params@[((#[trigger] values_to_find[t2]).idx) as int].full_name@ by {
        let w = choose|u: int|
            0 <= u < a.targets@.len() && a.nodes@[a.targets@[u] as int].full_name@
                == kb.params@[values_to_find[t2].idx as int].full_name@;
        assert(b.nodes@[b.targets@[w] as int].full_name@ == kb.params@[values_to_find[t2].idx as int].full_name@);
    }
    assert forall|u: int|
        0 <= u < b.targets@.len() implies exists|t2: int|
            0 <= t2 < values_to_find.len() && b.nodes@[(#[trigger] b.targets@[u]) as int].full_name@
                == kb.params@[values_to_find[t2].idx as int].full_name@ by {
        let t2 = choose|t2: int|
            0 <= t2 < values_to_find.len() && a.nodes@[a.targets@[u] as int].full_name@
                == kb.params@[(#[trigger] values_to_find[t2]).idx as int].full_name@;
        assert(b.nodes@[b.targets@[u] as int].full_name@ == kb.params@[values_to_find[t2].idx as int].full_name@);
    }
    assert forall|k2: int|
        0 <= k2 < known_values.len() implies b.has_node(
            kb.params@[((#[trigger] known_values[k2]).0.idx) as int].full_name@,
        ) by {
        let nm = kb.params@[known_values[k2].0.idx as int].full_name@;
        let w = choose|j: int|
            0 <= j < a.nodes@.len() && (#[trigger] a.nodes@[j].full_name@) == nm;
        assert(b.nodes@[w].full_name@ == nm);
    }
}

/// What a finished solve hands out: for each target, in order, its name and
/// value when its node ended resolved; failed targets are omitted.
pub open spec fn collected(g: Graph, upto: int) -> Seq<(Seq<char>, serde_json::Value)>
    decreases upto,
{
    if upto <= 0 {
        Seq::empty()
    } else {
        let pre = collected(g, upto - 1);
        match g.nodes@[g.targets@[upto - 1] as int].state {
            NodeState::Resolved(v) => pre.push(
                (g.nodes@[g.targets@[upto - 1] as int].full_name@, v),
            ),
            _ => pre,
        }
    }
}

/// The result rows equal the collected rows, name for name, value for value.
pub open spec fn pairs_match(
    r: Seq<(String, serde_json::Value)>,
    c: Seq<(Seq<char>, serde_json::Value)>,
) -> bool {
    &&& r.len() == c.len()
    &&& forall|m: int|
        0 <= m < r.len() ==> (#[trigger] r[m]).0@ == c[m].0 && r[m].1 == c[m].1
}

/// Every argument node of alternative `a` of node `i` is resolved.
pub open spec fn alt_args_resolved(g: Graph, i: int, a: int) -> bool {
    forall|m: int|
        0 <= m < g.nodes@[i].wtg@[a].args@.len() ==> g.nodes@[(#[trigger] g.nodes@[i].wtg@[a].args@[m]) as int].state is Resolved
}

/// Every decision between the two states is grounded: a node that went from
/// unresolved to failed had no default to fall back on, and a node without
/// alternatives can only have resolved to its declared default.
pub open spec fn decisions_grounded(a: Graph, b: Graph) -> bool {
    forall|j: int|
        0 <= j < a.nodes@.len() ==> {
            &&& ((a.nodes@[j].state is Unresolved && (#[trigger] b.nodes@[j]).state is Failed)
                ==> a.nodes@[j].default is None)
            &&& ((a.nodes@[j].state is Unresolved && a.nodes@[j].wtg@.len() == 0)
                ==> (match b.nodes@[j].state {
                NodeState::Resolved(v) => a.nodes@[j].default == Some(v),
                _ => true,
            }))
        }
}

proof fn lemma_grounded_trans(a: Graph, b: Graph, c: Graph)
    requires
        same_shape(a, b),
        decisions_grounded(a, b),
        same_shape(b, c),
        states_evolve(b, c),
        decisions_grounded(b, c),
    ensures
        decisions_grounded(a, c),
{
    assert forall|j: int| 0 <= j < a.nodes@.len() implies {
        &&& ((a.nodes@[j].state is Unresolved && (#[trigger] c.nodes@[j]).state is Failed)
            ==> a.nodes@[j].default is None)
        &&& ((a.nodes@[j].state is Unresolved && a.nodes@[j].wtg@.len() == 0)
            ==> (match c.nodes@[j].state {
            NodeState::Resolved(v) => a.nodes@[j].default == Some(v),
            _ => true,
        }))
    } by {
        assert(b.nodes@[j].default == a.nodes@[j].default);
        assert(b.nodes@[j].wtg@ == a.nodes@[j].wtg@);
        if a.nodes@[j].state is Unresolved {
            match b.nodes@[j].state {
                NodeState::Unresolved => {},
                NodeState::InProgress => {
                    assert(c.nodes@[j].state is InProgress);
                },
                NodeState::Resolved(_) => {
                    assert(c.nodes@[j].state == b.nodes@[j].state);
                },
                NodeState::Failed => {
                    assert(c.nodes@[j].state is Failed);
                },
            }
        }
    }
}

proof fn lemma_collected_stable(a: Graph, b: Graph, upto: int)
    requires
        0 <= upto <= a.targets@.len(),
        a.wf(),
        same_shape(a, b),
        states_evolve(a, b),
        forall|t: int|
            0 <= t < upto ==> (b.nodes@[(#[trigger] a.targets@[t]) as int].state is Resolved
                || b.nodes@[a.targets@[t] as int].state is Failed),
        forall|t: int|
            0 <= t < upto ==> ((a.nodes@[(#[trigger] a.targets@[t]) as int].state is Resolved
                || a.nodes@[a.targets@[t] as int].state is Failed)),
    ensures
        collected(b, upto) == collected(a, upto),
    decreases upto,
{
    if upto > 0 {
        lemma_collected_stable(a, b, upto - 1);
        let ti = a.targets@[upto - 1] as int;
        assert(b.targets@ == a.targets@);
        assert(b.nodes@[ti].full_name == a.nodes@[ti].full_name);
    }
}

proof fn lemma_collected_names(g: Graph, upto: int)
    requires
        0 <= upto <= g.targets@.len(),
    ensures
        forall|m: int|
            0 <= m < collected(g, upto).len() ==> exists|u: int|
                0 <= u < upto && (#[trigger] collected(g, upto)[m]).0 == g.nodes@[g.targets@[u] as int].full_name@
                    && g.nodes@[g.targets@[u] as int].state == NodeState::Resolved(
                    collected(g, upto)[m].1,
                ),
    decreases upto,
{
    if upto > 0 {
        lemma_collected_names(g, upto - 1);
        let c = collected(g, upto);
        let pre = collected(g, upto - 1);
        assert forall|m: int| 0 <= m < c.len() implies exists|u: int|
            0 <= u < upto && (#[trigger] c[m]).0 == g.nodes@[g.targets@[u] as int].full_name@
                && g.nodes@[g.targets@[u] as int].state == NodeState::Resolved(c[m].1) by {
            if m < pre.len() {
                let u = choose|u: int|
                    0 <= u < upto - 1 && (#[trigger] pre[m]).0 == g.nodes@[g.targets@[u] as int].full_name@
                        && g.nodes@[g.targets@[u] as int].state == NodeState::Resolved(pre[m].1);
                assert(c[m] == pre[m]);
                assert(0 <= u < upto && c[m].0 == g.nodes@[g.targets@[u] as int].full_name@
                    && g.nodes@[g.targets@[u] as int].state == NodeState::Resolved(c[m].1));
            } else {
                assert(g.nodes@[g.targets@[upto - 1] as int].state is Resolved);
                assert(c[m].0 == g.nodes@[g.targets@[upto - 1] as int].full_name@
                    && g.nodes@[g.targets@[upto - 1] as int].state == NodeState::Resolved(c[m].1));
            }
        }
    }
}

proof fn lemma_collected_contains(g: Graph, upto: int, u: int)
    requires
        0 <= u < upto <= g.targets@.len(),
        g.nodes@[g.targets@[u] as int].state is Resolved,
    ensures
        exists|m: int|
            0 <= m < collected(g, upto).len() && (#[trigger] collected(g, upto)[m]).0 == g.nodes@[g.targets@[u] as int].full_name@
                && g.nodes@[g.targets@[u] as int].state == NodeState::Resolved(
                collected(g, upto)[m].1,
            ),
    decreases upto,
{
    let c = collected(g, upto);
    let pre = collected(g, upto - 1);
    if u == upto - 1 {
        let m = pre.len() as int;
        assert(c[m].0 == g.nodes@[g.targets@[u] as int].full_name@ && g.nodes@[g.targets@[u] as int].state
            == NodeState::Resolved(c[m].1));
    } else {
        lemma_collected_contains(g, upto - 1, u);
        let m = choose|m: int|
            0 <= m < pre.len() && (#[trigger] pre[m]).0 == g.nodes@[g.targets@[u] as int].full_name@
                && g.nodes@[g.targets@[u] as int].state == NodeState::Resolved(pre[m].1);
        assert(c[m] == pre[m]);
        assert(0 <= m < c.len() && c[m].0 == g.nodes@[g.targets@[u] as int].full_name@
            && g.nodes@[g.targets@[u] as int].state == NodeState::Resolved(c[m].1));
    }
}

proof fn lemma_collected_distinct(g: Graph, upto: int)
    requires
        0 <= upto <= g.targets@.len(),
        g.wf(),
        g.node_names_unique(),
        forall|u1: int, u2: int|
            0 <= u1 < g.targets@.len() && 0 <= u2 < g.targets@.len() && u1 != u2 ==> (
            #[trigger] g.targets@[u1]) != (#[trigger] g.targets@[u2]),
    ensures
        forall|m1: int, m2: int|
            0 <= m1 < collected(g, upto).len() && 0 <= m2 < collected(g, upto).len() && m1 != m2
                ==> (#[trigger] collected(g, upto)[m1]).0 != (#[trigger] collected(g, upto)[m2]).0,
    decreases upto,
{
    if upto > 0 {
        lemma_collected_distinct(g, upto - 1);
        lemma_collected_names(g, upto - 1);
        let c = collected(g, upto);
        let pre = collected(g, upto - 1);
        assert forall|m1: int, m2: int|
            0 <= m1 < c.len() && 0 <= m2 < c.len() && m1 != m2 implies (#[trigger] c[m1]).0 != (
        #[trigger] c[m2]).0 by {
            if m1 < pre.len() && m2 < pre.len() {
                assert(c[m1] == pre[m1]);
                assert(c[m2] == pre[m2]);
            } else {
                let old_m: int = if m1 < pre.len() { m1 } else { m2 };
                let new_m: int = if m1 < pre.len() { m2 } else { m1 };
                assert(c[old_m] == pre[old_m]);
                assert(c[new_m].0 == g.nodes@[g.targets@[upto - 1] as int].full_name@);
                let u = choose|u: int|
                    0 <= u < upto - 1 && (#[trigger] pre[old_m]).0 == g.nodes@[g.targets@[u] as int].full_name@
                        && g.nodes@[g.targets@[u] as int].state == NodeState::Resolved(
                        pre[old_m].1,
                    );
                assert(g.targets@[u] != g.targets@[upto - 1]);
                assert(g.nodes@[g.targets@[u] as int].full_name@ != g.nodes@[g.targets@[upto - 1] as int].full_name@);
            }
        }
    }
}

/// Lifts the graph-level guarantees to the solve entry point: result keys
/// are requested fully-qualified names, pairwise distinct; a requested
/// target named among the known values appears with its last known value;
/// and a requested target with no targeting rule and an unambiguous
/// declared default appears with that default.
#[verifier::rlimit(100)]
pub(crate) proof fn lemma_solve_facts(
    kb: KnowledgeBase,
    known: Seq<(Parameter, serde_json::Value)>,
    find: Seq<Parameter>,
    g0: Graph,
    gf: Graph,
    out: Seq<(String, serde_json::Value)>,
)
    requires
        kb.wf(),
        forall|k: int|
            0 <= k < known.len() ==> ((#[trigger] known[k]).0.idx as int) < kb.params@.len(),
        forall|t: int| 0 <= t < find.len() ==> ((#[trigger] find[t]).idx as int) < kb.params@.len(),
        g0.wf(),
        g0.node_names_unique(),
        seeded_from(g0, kb, known),
        defaults_from_params(g0, kb),
        graph_matches_rules(g0, kb, kb.rules@),
        targets_cover(g0, kb, find, find.len() as int),
        targets_from(g0, kb, find),
        forall|u1: int, u2: int|
            0 <= u1 < g0.targets@.len() && 0 <= u2 < g0.targets@.len() && u1 != u2 ==> (
            #[trigger] g0.targets@[u1]) != (#[trigger] g0.targets@[u2]),
        same_shape(g0, gf),
        states_evolve(g0, gf),
        decisions_grounded(g0, gf),
        forall|u: int|
            0 <= u < gf.targets@.len() ==> (gf.nodes@[(#[trigger] gf.targets@[u]) as int].state
                is Resolved || gf.nodes@[gf.targets@[u] as int].state is Failed),
        forall|u: int|
            0 <= u < gf.targets@.len() ==> ((gf.nodes@[(#[trigger] gf.targets@[u]) as int].state
                is Failed) ==> gf.nodes@[gf.targets@[u] as int].default is None),
        pairs_match(out, collected(gf, gf.targets@.len() as int)),
    ensures
        forall|m: int|
            0 <= m < out.len() ==> exists|t: int|
                0 <= t < find.len() && (#[trigger] out[m]).0@ == kb.params@[find[t].idx as int].full_name@,
        forall|m1: int, m2: int|
            0 <= m1 < out.len() && 0 <= m2 < out.len() && m1 != m2 ==> (#[trigger] out[m1]).0@
                != (#[trigger] out[m2]).0@,
        forall|t: int|
            0 <= t < find.len() ==> (match last_known(
                kb,
                known,
                kb.params@[(#[trigger] find[t]).idx as int].full_name@,
            ) {
                Some(v) => exists|m: int|
                    0 <= m < out.len() && (#[trigger] out[m]).0@ == kb.params@[find[t].idx as int].full_name@
                        && out[m].1 == v,
                None => true,
            }),
        forall|t: int|
            0 <= t < find.len() ==> (match kb.params@[(#[trigger] find[t]).idx as int].default {
                Some(d) => (last_known(kb, known, kb.params@[find[t].idx as int].full_name@)
                    is None && rules_targeting(
                    kb,
                    kb.rules@,
                    kb.params@[find[t].idx as int].full_name@,
                ).len() == 0 && (forall|p: int|
                    0 <= p < kb.params@.len() && (#[trigger] kb.params@[p].full_name@)
                        == kb.params@[find[t].idx as int].full_name@ ==> kb.params@[p].default
                        == Some(d))) ==> exists|m: int|
                    0 <= m < out.len() && (#[trigger] out[m]).0@ == kb.params@[find[t].idx as int].full_name@
                        && out[m].1 == d,
                None => true,
            }),
{
    let upto = gf.targets@.len() as int;
    assert(gf.targets@ == g0.targets@);
    assert forall|i: int| 0 <= i < gf.nodes@.len() implies #[trigger] gf.node_wf(i) by {
        assert(g0.node_wf(i));
        assert forall|x: int, y: int|
            0 <= x < gf.nodes@[i].wtg@.len() && 0 <= y < gf.nodes@[i].wtg@[x].args@.len() implies (
        #[trigger] gf.nodes@[i].wtg@[x].args@[y] as int) < gf.nodes@.len() by {
            assert(gf.nodes@[i].wtg@ == g0.nodes@[i].wtg@);
            assert((g0.nodes@[i].wtg@[x].args@[y] as int) < g0.nodes@.len());
        }
    }
    assert forall|u: int|
        0 <= u < gf.targets@.len() implies (#[trigger] gf.targets@[u] as int)
            < gf.nodes@.len() by {
        assert((g0.targets@[u] as int) < g0.nodes@.len());
    }
    assert(gf.wf());
    assert forall|i: int, j: int|
        #![trigger gf.nodes@[i], gf.nodes@[j]]
        0 <= i < gf.nodes@.len() && 0 <= j < gf.nodes@.len() && i != j implies gf.nodes@[i].full_name@
            != gf.nodes@[j].full_name@ by {
        assert(gf.nodes@[i].full_name == g0.nodes@[i].full_name);
        assert(gf.nodes@[j].full_name == g0.nodes@[j].full_name);
        assert(g0.nodes@[i].full_name@ != g0.nodes@[j].full_name@);
    }
    assert(gf.node_names_unique());
    lemma_collected_names(gf, upto);
    lemma_collected_distinct(gf, upto);
    let c = collected(gf, upto);

    assert forall|m: int| 0 <= m < out.len() implies exists|t: int|
        0 <= t < find.len() && (#[trigger] out[m]).0@ == kb.params@[find[t].idx as int].full_name@ by {
        let u = choose|u: int|
            0 <= u < upto && (#[trigger] c[m]).0 == gf.nodes@[gf.targets@[u] as int].full_name@
                && gf.nodes@[gf.targets@[u] as int].state == NodeState::Resolved(c[m].1);
        assert(gf.nodes@[gf.targets@[u] as int].full_name == g0.nodes@[g0.targets@[u] as int].full_name);
        let t = choose|t: int|
            0 <= t < find.len() && g0.nodes@[(#[trigger] g0.targets@[u]) as int].full_name@
                == kb.params@[find[t].idx as int].full_name@;
        assert(out[m].0@ == c[m].0);
        assert(0 <= t < find.len() && out[m].0@ == kb.params@[find[t].idx as int].full_name@);
    }

    assert forall|m1: int, m2: int|
        0 <= m1 < out.len() && 0 <= m2 < out.len() && m1 != m2 implies (#[trigger] out[m1]).0@
            != (#[trigger] out[m2]).0@ by {
        assert(out[m1].0@ == c[m1].0);
        assert(out[m2].0@ == c[m2].0);
        assert(c[m1].0 != c[m2].0);
    }

    assert forall|t: int| 0 <= t < find.len() implies (match last_known(
        kb,
        known,
        kb.params@[(#[trigger] find[t]).idx as int].full_name@,
    ) {
        Some(v) => exists|m: int|
            0 <= m < out.len() && (#[trigger] out[m]).0@ == kb.params@[find[t].idx as int].full_name@
                && out[m].1 == v,
        None => true,
    }) by {
        let name = kb.params@[find[t].idx as int].full_name@;
        match last_known(kb, known, name) {
            Some(v) => {
                let u = choose|u: int|
                    0 <= u < g0.targets@.len() && g0.nodes@[g0.targets@[u] as int].full_name@
                        == kb.params@[((#[trigger] find[t]).idx) as int].full_name@;
                let ni = g0.targets@[u] as int;
                assert(g0.nodes@[ni].state == NodeState::Resolved(v));
                assert(gf.nodes@[ni].state == NodeState::Resolved(v));
                lemma_collected_contains(gf, upto, u);
                let m = choose|m: int|
                    0 <= m < c.len() && (#[trigger] c[m]).0 == gf.nodes@[gf.targets@[u] as int].full_name@
                        && gf.nodes@[gf.targets@[u] as int].state == NodeState::Resolved(c[m].1);
                assert(gf.nodes@[ni].full_name == g0.nodes@[ni].full_name);
                assert(out[m].0@ == c[m].0);
                assert(out[m].1 == c[m].1);
                assert(0 <= m < out.len() && out[m].0@ == name && out[m].1 == v);
            },
            None => {},
        }
    }

    assert forall|t: int| 0 <= t < find.len() implies (match kb.params@[(
    #[trigger] find[t]).idx as int].default {
        Some(d) => (last_known(kb, known, kb.params@[find[t].idx as int].full_name@) is None
            && rules_targeting(kb, kb.rules@, kb.params@[find[t].idx as int].full_name@).len()
            == 0 && (forall|p: int|
            0 <= p < kb.params@.len() && (#[trigger] kb.params@[p].full_name@)
                == kb.params@[find[t].idx as int].full_name@ ==> kb.params@[p].default == Some(
                d,
            ))) ==> exists|m: int|
            0 <= m < out.len() && (#[trigger] out[m]).0@ == kb.params@[find[t].idx as int].full_name@
                && out[m].1 == d,
        None => true,
    }) by {
        let name = kb.params@[find[t].idx as int].full_name@;
        match kb.params@[find[t].idx as int].default {
            Some(d) => {
                if last_known(kb, known, name) is None && rules_targeting(
                    kb,
                    kb.rules@,
                    name,
                ).len() == 0 && (forall|p: int|
                    0 <= p < kb.params@.len() && (#[trigger] kb.params@[p].full_name@) == name
                        ==> kb.params@[p].default == Some(d)) {
                    let u = choose|u: int|
                        0 <= u < g0.targets@.len() && g0.nodes@[g0.targets@[u] as int].full_name@
                            == kb.params@[((#[trigger] find[t]).idx) as int].full_name@;
                    let ni = g0.targets@[u] as int;
                    assert(g0.nodes@[ni].state is Unresolved);
                    assert(wtg_matches(g0, kb, kb.rules@, ni));
                    assert(g0.nodes@[ni].wtg@.len() == 0);
                    let p = choose|p: int|
                        0 <= p < kb.params@.len() && (#[trigger] kb.params@[p].full_name@)
                            == g0.nodes@[ni].full_name@ && g0.nodes@[ni].default == kb.params@[p].default;
                    assert(g0.nodes@[ni].default == Some(d));
                    assert(gf.nodes@[ni].default == Some(d));
                    assert(!(gf.nodes@[ni].state is Failed));
                    assert(gf.nodes@[ni].state is Resolved);
                    match gf.nodes@[ni].state {
                        NodeState::Resolved(v) => {
                            assert(g0.nodes@[ni].default == Some(v));
                            assert(v == d);
                        },
                        _ => {},
                    }
                    lemma_collected_contains(gf, upto, u);
                    let m = choose|m: int|
                        0 <= m < c.len() && (#[trigger] c[m]).0 == gf.nodes@[gf.targets@[u] as int].full_name@
                            && gf.nodes@[gf.targets@[u] as int].state == NodeState::Resolved(
                            c[m].1,
                        );
                    assert(gf.nodes@[ni].full_name == g0.nodes@[ni].full_name);
                    assert(out[m].0@ == c[m].0);
                    assert(out[m].1 == c[m].1);
                    assert(0 <= m < out.len() && out[m].0@ == name && out[m].1 == d);
                }
            },
            None => {},
        }
    }
}

proof fn lemma_matches_extend_nodes(a: Graph, b: Graph, kb: KnowledgeBase, rules: Seq<Rule>)
    requires
        graph_matches_rules(a, kb, rules),
        a.wf(),
        b.nodes@.len() == a.nodes@.len() + 1,
        forall|j: int| 0 <= j < a.nodes@.len() ==> b.nodes@[j] == a.nodes@[j],
        b.nodes@.last().wtg@.len() == 0,
        rules_targeting(kb, rules, b.nodes@.last().full_name@).len() == 0,
    ensures
        graph_matches_rules(b, kb, rules),
{
    assert forall|i: int| 0 <= i < b.nodes@.len() implies #[trigger] wtg_matches(
        b,
        kb,
        rules,
        i,
    ) by {
        if i < a.nodes@.len() {
            assert(wtg_matches(a, kb, rules, i));
            assert(b.nodes@[i] == a.nodes@[i]);
            let rt = rules_targeting(kb, rules, b.nodes@[i].full_name@);
            assert(a.node_wf(i));
            assert forall|x: int| 0 <= x < rt.len() implies {
                &&& (#[trigger] b.nodes@[i].wtg@[x]).fun_name@ == kb.relations@[rt[x].relation.idx as int].name@
                &&& b.nodes@[i].wtg@[x].args@.len() == rt[x].args@.len()
                &&& forall|y: int|
                    0 <= y < rt[x].args@.len() ==> (#[trigger] b.nodes@[b.nodes@[i].wtg@[x].args@[y] as int].full_name@)
                        == kb.params@[rt[x].args@[y].idx as int].full_name@
            } by {
                assert forall|y: int|
                    0 <= y < rt[x].args@.len() implies (#[trigger] b.nodes@[b.nodes@[i].wtg@[x].args@[y] as int].full_name@)
                        == kb.params@[rt[x].args@[y].idx as int].full_name@ by {
                    assert((a.nodes@[i].wtg@[x].args@[y] as int) < a.nodes@.len());
                    assert(b.nodes@[a.nodes@[i].wtg@[x].args@[y] as int] == a.nodes@[a.nodes@[i].wtg@[x].args@[y] as int]);
                }
            }
        }
    }
}

proof fn lemma_matches_push_way(
    a: Graph,
    b: Graph,
    kb: KnowledgeBase,
    rules: Seq<Rule>,
    rule: Rule,
    way: WayToGet,
    ti: int,
)
    requires
        graph_matches_rules(a, kb, rules),
        a.wf(),
        a.node_names_unique(),
        (rule.target.idx as int) < kb.params@.len(),
        0 <= ti < a.nodes@.len(),
        a.nodes@[ti].full_name@ == kb.params@[rule.target.idx as int].full_name@,
        (rule.relation.idx as int) < kb.relations@.len(),
        way.fun_name@ == kb.relations@[rule.relation.idx as int].name@,
        way.args@.len() == rule.args@.len(),
        forall|y: int|
            0 <= y < rule.args@.len() ==> (#[trigger] rule.args@[y].idx as int)
                < kb.params@.len(),
        forall|y: int|
            0 <= y < way.args@.len() ==> (#[trigger] way.args@[y] as int) < a.nodes@.len()
                && a.nodes@[way.args@[y] as int].full_name@ == kb.params@[rule.args@[y].idx as int].full_name@,
        b.nodes@.len() == a.nodes@.len(),
        forall|j: int| 0 <= j < a.nodes@.len() && j != ti ==> b.nodes@[j] == a.nodes@[j],
        b.nodes@[ti].full_name == a.nodes@[ti].full_name,
        b.nodes@[ti].default == a.nodes@[ti].default,
        b.nodes@[ti].state == a.nodes@[ti].state,
        b.nodes@[ti].wtg@ == a.nodes@[ti].wtg@.push(way),
    ensures
        graph_matches_rules(b, kb, rules.push(rule)),
{
    let rules2 = rules.push(rule);
    assert(rules2.drop_last() =~= rules);
    assert(rules2.last() == rule);
    assert forall|i: int| 0 <= i < b.nodes@.len() implies #[trigger] wtg_matches(
        b,
        kb,
        rules2,
        i,
    ) by {
        assert(wtg_matches(a, kb, rules, i));
        assert(a.node_wf(i));
        let name = b.nodes@[i].full_name@;
        assert(name == a.nodes@[i].full_name@);
        let rt0 = rules_targeting(kb, rules, name);
        let rt = rules_targeting(kb, rules2, name);
        if i == ti {
            assert(rt =~= rt0.push(rule));
            assert forall|x: int| 0 <= x < rt.len() implies {
                &&& (#[trigger] b.nodes@[i].wtg@[x]).fun_name@ == kb.relations@[rt[x].relation.idx as int].name@
                &&& b.nodes@[i].wtg@[x].args@.len() == rt[x].args@.len()
                &&& forall|y: int|
                    0 <= y < rt[x].args@.len() ==> (#[trigger] b.nodes@[b.nodes@[i].wtg@[x].args@[y] as int].full_name@)
                        == kb.params@[rt[x].args@[y].idx as int].full_name@
            } by {
                if x < rt0.len() {
                    assert(rt[x] == rt0[x]);
                    assert(b.nodes@[i].wtg@[x] == a.nodes@[i].wtg@[x]);
                    assert forall|y: int|
                        0 <= y < rt[x].args@.len() implies (#[trigger] b.nodes@[b.nodes@[i].wtg@[x].args@[y] as int].full_name@)
                            == kb.params@[rt[x].args@[y].idx as int].full_name@ by {
                        assert((a.nodes@[i].wtg@[x].args@[y] as int) < a.nodes@.len());
                        let w = a.nodes@[i].wtg@[x].args@[y] as int;
                        assert(b.nodes@[w].full_name == a.nodes@[w].full_name);
                    }
                } else {
                    assert(rt[x] == rule);
                    assert(b.nodes@[i].wtg@[x] == way);
                    assert forall|y: int|
                        0 <= y < rt[x].args@.len() implies (#[trigger] b.nodes@[b.nodes@[i].wtg@[x].args@[y] as int].full_name@)
                            == kb.params@[rt[x].args@[y].idx as int].full_name@ by {
                        let w = way.args@[y] as int;
                        assert(a.nodes@[w].full_name@ == kb.params@[rule.args@[y].idx as int].full_name@);
                        assert(b.nodes@[w].full_name == a.nodes@[w].full_name);
                    }
                }
            }
        } else {
            assert(name != kb.params@[rule.target.idx as int].full_name@);
            assert(rt =~= rt0);
            assert(b.nodes@[i].wtg@ == a.nodes@[i].wtg@);
            assert forall|x: int| 0 <= x < rt.len() implies {
                &&& (#[trigger] b.nodes@[i].wtg@[x]).fun_name@ == kb.relations@[rt[x].relation.idx as int].name@
                &&& b.nodes@[i].wtg@[x].args@.len() == rt[x].args@.len()
                &&& forall|y: int|
                    0 <= y < rt[x].args@.len() ==> (#[trigger] b.nodes@[b.nodes@[i].wtg@[x].args@[y] as int].full_name@)
                        == kb.params@[rt[x].args@[y].idx as int].full_name@
            } by {
                assert(rt[x] == rt0[x]);
                assert forall|y: int|
                    0 <= y < rt[x].args@.len() implies (#[trigger] b.nodes@[b.nodes@[i].wtg@[x].args@[y] as int].full_name@)
                        == kb.params@[rt[x].args@[y].idx as int].full_name@ by {
                    assert((a.nodes@[i].wtg@[x].args@[y] as int) < a.nodes@.len());
                    let w = a.nodes@[i].wtg@[x].args@[y] as int;
                    assert(b.nodes@[w].full_name == a.nodes@[w].full_name);
                }
            }
        }
    }
}

proof fn lemma_update_state_shape(a: Graph, b: Graph, idx: int)
    requires
        a.wf(),
        0 <= idx < a.nodes@.len(),
        b.nodes@.len() == a.nodes@.len(),
        b.targets@ == a.targets@,
        b.sources@ == a.sources@,
        forall|j: int| 0 <= j < a.nodes@.len() && j != idx ==> b.nodes@[j] == a.nodes@[j],
        b.nodes@[idx].full_name == a.nodes@[idx].full_name,
        b.nodes@[idx].default == a.nodes@[idx].default,
        b.nodes@[idx].wtg@ == a.nodes@[idx].wtg@,
    ensures
        b.wf(),
        same_shape(a, b),
{
    assert forall|i: int| 0 <= i < b.nodes@.len() implies b.node_wf(i) by {
        assert(a.node_wf(i));
        assert forall|x: int, y: int|
            0 <= x < b.nodes@[i].wtg@.len() && 0 <= y < b.nodes@[i].wtg@[x].args@.len() implies (
        #[trigger] b.nodes@[i].wtg@[x].args@[y] as int) < b.nodes@.len() by {
            assert(b.nodes@[i].wtg@ == a.nodes@[i].wtg@);
            assert(b.nodes@[i].wtg@[x] == a.nodes@[i].wtg@[x]);
            assert((a.nodes@[i].wtg@[x].args@[y] as int) < a.nodes@.len());
        }
    }
}


proof fn lemma_push_way_frame(
    g1: Graph,
    g2: Graph,
    kb: KnowledgeBase,
    known_values: Seq<(Parameter, serde_json::Value)>,
    values_to_find: Seq<Parameter>,
    r: int,
    way_g: WayToGet,
    ti: int,
)
    requires
        kb.wf(),
        0 <= r < kb.rules@.len(),
        forall|k2: int|
            0 <= k2 < known_values.len() ==> ((#[trigger] known_values[k2]).0.idx as int)
                < kb.params@.len(),
        forall|t2: int|
            0 <= t2 < values_to_find.len() ==> ((#[trigger] values_to_find[t2]).idx as int)
                < kb.params@.len(),
        g1.node_names_unique(),
        g1.wf(),
        defaults_from_params(g1, kb),
        seeded_from(g1, kb, known_values),
        graph_matches_rules(g1, kb, kb.rules@.subrange(0, r)),
        forall|k2: int|
            0 <= k2 < known_values.len() ==> g1.has_node(
                kb.params@[((#[trigger] known_values[k2]).0.idx) as int].full_name@,
            ),
        forall|r2: int|
            0 <= r2 < r + 1 ==> g1.has_node(
                kb.params@[((#[trigger] kb.rules@[r2]).target.idx) as int].full_name@,
            ),
        targets_cover(g1, kb, values_to_find, values_to_find.len() as int),
        targets_from(g1, kb, values_to_find),
        0 <= ti < g1.nodes@.len(),
        g1.nodes@[ti].full_name@ == kb.params@[kb.rules@[r].target.idx as int].full_name@,
        way_g.fun_name@ == kb.relations@[kb.rules@[r].relation.idx as int].name@,
        way_g.args@.len() == kb.rules@[r].args@.len(),
        forall|y: int|
            0 <= y < way_g.args@.len() ==> (#[trigger] way_g.args@[y] as int) < g1.nodes@.len()
                && g1.nodes@[way_g.args@[y] as int].full_name@ == kb.params@[kb.rules@[r].args@[y].idx as int].full_name@,
        g2.nodes@.len() == g1.nodes@.len(),
        forall|j: int| 0 <= j < g1.nodes@.len() && j != ti ==> g2.nodes@[j] == g1.nodes@[j],
        g2.nodes@[ti].full_name == g1.nodes@[ti].full_name,
        g2.nodes@[ti].default == g1.nodes@[ti].default,
        g2.nodes@[ti].state == g1.nodes@[ti].state,
        g2.nodes@[ti].wtg@ == g1.nodes@[ti].wtg@.push(way_g),
        g2.targets@ == g1.targets@,
        g2.sources@ == g1.sources@,
    ensures
        g2.node_names_unique(),
        g2.wf(),
        defaults_from_params(g2, kb),
        seeded_from(g2, kb, known_values),
        graph_matches_rules(g2, kb, kb.rules@.subrange(0, r + 1)),
        forall|k2: int|
            0 <= k2 < known_values.len() ==> g2.has_node(
                kb.params@[((#[trigger] known_values[k2]).0.idx) as int].full_name@,
            ),
        forall|r2: int|
            0 <= r2 < r + 1 ==> g2.has_node(
                kb.params@[((#[trigger] kb.rules@[r2]).target.idx) as int].full_name@,
            ),
        targets_cover(g2, kb, values_to_find, values_to_find.len() as int),
        targets_from(g2, kb, values_to_find),
{
    assert(kb.rule_wf(r));

                lemma_matches_push_way(
                    g1,
                    g2,
                    kb,
                    kb.rules@.subrange(0, r),
                    kb.rules@[r],
                    way_g,
                    ti,
                );
                assert(kb.rules@.subrange(0, r).push(kb.rules@[r]) =~= kb.rules@.subrange(0, r + 1));
                assert forall|i: int| 0 <= i < g2.nodes@.len() implies #[trigger] g2.node_wf(i) by {
                    assert(g1.node_wf(i));
                    if i == ti {
                        assert forall|x: int, y: int|
                            0 <= x < g2.nodes@[i].wtg@.len() && 0 <= y < g2.nodes@[i].wtg@[x].args@.len() implies (
                        #[trigger] g2.nodes@[i].wtg@[x].args@[y] as int) < g2.nodes@.len() by {
                            if x < g1.nodes@[i].wtg@.len() {
                                assert(g2.nodes@[i].wtg@[x] == g1.nodes@[i].wtg@[x]);
                            } else {
                                assert(g2.nodes@[i].wtg@[x] == way_g);
                            }
                        }
                    } else {
                        assert(g2.nodes@[i] == g1.nodes@[i]);
                    }
                }
                assert forall|a: int, c: int|
                    0 <= a < g2.nodes@.len() && 0 <= c < g2.nodes@.len() && a != c implies
                    g2.nodes@[a].full_name@ != g2.nodes@[c].full_name@ by {
                    assert(g1.nodes@[a].full_name@ != g1.nodes@[c].full_name@);
                    assert(g2.nodes@[a].full_name == g1.nodes@[a].full_name);
                    assert(g2.nodes@[c].full_name == g1.nodes@[c].full_name);
                }
                assert forall|j: int| 0 <= j < g2.nodes@.len() implies ((#[trigger] g2.nodes@[j]).state
                    == (match last_known(kb, known_values, g2.nodes@[j].full_name@) {
                    Some(v2) => NodeState::Resolved(v2),
                    None => NodeState::Unresolved,
                })) by {
                    assert(g2.nodes@[j].full_name == g1.nodes@[j].full_name);
                    assert(g2.nodes@[j].state == g1.nodes@[j].state);
                }
                assert forall|j: int| 0 <= j < g2.nodes@.len() implies exists|q: int|
                    0 <= q < kb.params@.len() && (#[trigger] kb.params@[q].full_name@) == (
                    #[trigger] g2.nodes@[j]).full_name@ && g2.nodes@[j].default == kb.params@[q].default by {
                    let q = choose|q: int|
                        0 <= q < kb.params@.len() && (#[trigger] kb.params@[q].full_name@)
                            == g1.nodes@[j].full_name@ && g1.nodes@[j].default == kb.params@[q].default;
                    assert(kb.params@[q].full_name@ == g2.nodes@[j].full_name@ && g2.nodes@[j].default
                        == kb.params@[q].default);
                }
                assert forall|k2: int|
                    0 <= k2 < known_values.len() implies g2.has_node(
                        kb.params@[((#[trigger] known_values[k2]).0.idx) as int].full_name@,
                    ) by {
                    let nm = kb.params@[known_values[k2].0.idx as int].full_name@;
                    let w = choose|j: int|
                        0 <= j < g1.nodes@.len() && (#[trigger] g1.nodes@[j].full_name@) == nm;
                    assert(g2.nodes@[w].full_name@ == nm);
                }
                assert forall|r2: int| 0 <= r2 < r + 1 implies g2.has_node(
                    kb.params@[((#[trigger] kb.rules@[r2]).target.idx) as int].full_name@,
                ) by {
                    let nm = kb.params@[kb.rules@[r2].target.idx as int].full_name@;
                    let w = choose|j: int|
                        0 <= j < g1.nodes@.len() && (#[trigger] g1.nodes@[j].full_name@) == nm;
                    assert(g2.nodes@[w].full_name@ == nm);
                }
                assert forall|t2: int|
                    0 <= t2 < values_to_find.len() implies exists|u: int|
                        0 <= u < g2.targets@.len() && g2.nodes@[g2.targets@[u] as int].full_name@
                            == kb.params@[((#[trigger] values_to_find[t2]).idx) as int].full_name@ by {
                    let w = choose|u: int|
                        0 <= u < g1.targets@.len() && g1.nodes@[g1.targets@[u] as int].full_name@
                            == kb.params@[values_to_find[t2].idx as int].full_name@;
                    assert(g2.nodes@[g2.targets@[w] as int].full_name@ == kb.params@[values_to_find[t2].idx as int].full_name@);
                }
                assert forall|u: int|
                    0 <= u < g2.targets@.len() implies exists|t2: int|
                        0 <= t2 < values_to_find.len() && g2.nodes@[(#[trigger] g2.targets@[u]) as int].full_name@
                            == kb.params@[values_to_find[t2].idx as int].full_name@ by {
                    let t2 = choose|t2: int|
                        0 <= t2 < values_to_find.len() && g1.nodes@[g1.targets@[u] as int].full_name@
                            == kb.params@[(#[trigger] values_to_find[t2]).idx as int].full_name@;
                    assert(g2.nodes@[g2.targets@[u] as int].full_name@ == kb.params@[values_to_find[t2].idx as int].full_name@);
                }
            
}

impl Graph {
    /// Every alternative's argument indices stay inside the arena.
    pub open spec fn node_wf(self, i: int) -> bool {
        forall|a: int, b: int|
            0 <= a < self.nodes@[i].wtg@.len() && 0 <= b < self.nodes@[i].wtg@[a].args@.len()
                ==> (#[trigger] self.nodes@[i].wtg@[a].args@[b] as int) < self.nodes@.len()
    }

    pub open spec fn wf(self) -> bool {
        &&& forall|i: int| 0 <= i < self.nodes@.len() ==> #[trigger] self.node_wf(i)
        &&& forall|t: int|
            0 <= t < self.targets@.len() ==> (#[trigger] self.targets@[t] as int)
                < self.nodes@.len()
    }

    /// Some node already bears this fully-qualified name.
    pub open spec fn has_node(self, name: Seq<char>) -> bool {
        exists|i: int|
            0 <= i < self.nodes@.len() && (#[trigger] self.nodes@[i].full_name@) == name
    }

    /// One node per fully-qualified name.
    pub open spec fn node_names_unique(self) -> bool {
        forall|i: int, j: int|
            #![trigger self.nodes@[i], self.nodes@[j]]
            0 <= i < self.nodes@.len() && 0 <= j < self.nodes@.len() && i != j
                ==> self.nodes@[i].full_name@ != self.nodes@[j].full_name@
    }

    /// Builds the graph a query needs: seeds nodes with the known values
    /// (later entries overwrite earlier ones), records the targets, and adds
    /// one alternative per rule to its target's node, in registration order,
    /// with argument nodes shared by fully-qualified name.
    #[verifier::rlimit(100)]
    #[verifier::spinoff_prover]
    pub(crate) fn new(
        kb: &KnowledgeBase,
        known_values: &[(Parameter, serde_json::Value)],
        values_to_find: &[Parameter],
    ) -> (g: Graph)
        requires
            kb.wf(),
            forall|k: int|
                0 <= k < known_values@.len() ==> ((#[trigger] known_values@[k]).0.idx as int)
                    < kb.params@.len(),
            forall|t: int|
                0 <= t < values_to_find@.len() ==> ((#[trigger] values_to_find@[t]).idx as int)
                    < kb.params@.len(),
        ensures
            g.wf(),
            g.node_names_unique(),
            seeded_from(g, *kb, known_values@),
            defaults_from_params(g, *kb),
            graph_matches_rules(g, *kb, kb.rules@),
            forall|i: int|
                0 <= i < g.nodes@.len() ==> !((#[trigger] g.nodes@[i]).state is InProgress),
            targets_cover(g, *kb, values_to_find@, values_to_find@.len() as int),
            targets_from(g, *kb, values_to_find@),
            g.targets@.len() <= values_to_find@.len(),
            forall|u1: int, u2: int|
                0 <= u1 < g.targets@.len() && 0 <= u2 < g.targets@.len() && u1 != u2 ==> (
                #[trigger] g.targets@[u1]) != (#[trigger] g.targets@[u2]),
            sources_from_relations(g.sources@, *kb),
            sources_cover(g.sources@, *kb, kb.rules@.len() as int),
            sources_distinct(g.sources@),
    {
        let mut g = Graph { nodes: Vec::new(), targets: Vec::new(), sources: Vec::new() };
        let n_known = known_values.len();
        let mut k: usize = 0;
        while k < n_known
            invariant
                kb.wf(),
                n_known == known_values@.len(),
                k <= n_known,
                forall|k2: int|
                    0 <= k2 < known_values@.len() ==> ((#[trigger] known_values@[k2]).0.idx as int)
                        < kb.params@.len(),
                g.node_names_unique(),
                g.wf(),
                forall|i: int| 0 <= i < g.nodes@.len() ==> (#[trigger] g.nodes@[i]).wtg@.len() == 0,
                g.targets@.len() == 0,
                g.sources@.len() == 0,
                defaults_from_params(g, *kb),
                seeded_from(g, *kb, known_values@.subrange(0, k as int)),
                forall|k2: int|
                    0 <= k2 < k ==> g.has_node(
                        kb.params@[((#[trigger] known_values@[k2]).0.idx) as int].full_name@,
                    ),
            decreases n_known - k,
        {
            let ghost pre = known_values@.subrange(0, k as int);
            let ghost nxt = known_values@.subrange(0, k + 1);
            let pair = &known_values[k];
            let p: Parameter = pair.0;
            let ghost name = kb.params@[p.idx as int].full_name@;
            let ghost g0 = g;
            let i = g.fetch(kb, p);
            proof {
                if !g0.has_node(name) {
                    assert forall|k2: int|
                        0 <= k2 < k implies kb.params@[((#[trigger] known_values@[k2]).0.idx) as int].full_name@
                            != name by {
                        if kb.params@[known_values@[k2].0.idx as int].full_name@ == name {
                            assert(g0.has_node(name));
                        }
                    }
                    lemma_last_known_absent(*kb, pre, name);
                }
            }
            let ghost g1 = g;
            let v = clone_value(&pair.1);
            g.nodes[i].state = NodeState::Resolved(v);
            proof {
                assert(nxt.drop_last() =~= pre);
                assert(nxt.last() == known_values@[k as int]);
                lemma_update_state_shape(g1, g, i as int);
                assert forall|a: int, b: int|
                    0 <= a < g.nodes@.len() && 0 <= b < g.nodes@.len() && a != b implies
                    g.nodes@[a].full_name@ != g.nodes@[b].full_name@ by {
                    assert(g1.nodes@[a].full_name@ != g1.nodes@[b].full_name@);
                    assert(g.nodes@[a].full_name == g1.nodes@[a].full_name);
                    assert(g.nodes@[b].full_name == g1.nodes@[b].full_name);
                }
                assert forall|j: int| 0 <= j < g.nodes@.len() implies ((#[trigger] g.nodes@[j]).state
                    == (match last_known(*kb, nxt, g.nodes@[j].full_name@) {
                    Some(v2) => NodeState::Resolved(v2),
                    None => NodeState::Unresolved,
                })) by {
                    assert(g.nodes@[j].full_name == g1.nodes@[j].full_name);
                    if j != i {
                        assert(g.nodes@[j] == g1.nodes@[j]);
                        assert(g1.nodes@[j].full_name@ != name);
                    }
                }
                assert forall|j: int| 0 <= j < g.nodes@.len() implies exists|q: int|
                    0 <= q < kb.params@.len() && (#[trigger] kb.params@[q].full_name@) == (
                    #[trigger] g.nodes@[j]).full_name@ && g.nodes@[j].default == kb.params@[q].default by {
                    let q = choose|q: int|
                        0 <= q < kb.params@.len() && (#[trigger] kb.params@[q].full_name@)
                            == g1.nodes@[j].full_name@ && g1.nodes@[j].default == kb.params@[q].default;
                    assert(kb.params@[q].full_name@ == g.nodes@[j].full_name@ && g.nodes@[j].default
                        == kb.params@[q].default);
                }
                assert forall|k2: int| 0 <= k2 < k + 1 implies g.has_node(
                    kb.params@[((#[trigger] known_values@[k2]).0.idx) as int].full_name@,
                ) by {
                    let nm = kb.params@[known_values@[k2].0.idx as int].full_name@;
                    if k2 < k {
                        let w = choose|j: int|
                            0 <= j < g1.nodes@.len() && (#[trigger] g1.nodes@[j].full_name@) == nm;
                        assert(g.nodes@[w].full_name@ == nm);
                    } else {
                        assert(g.nodes@[i as int].full_name@ == nm);
                    }
                }
            }
            k += 1;
        }
        proof {
            assert(known_values@.subrange(0, n_known as int) =~= known_values@);
        }
        let n_find = values_to_find.len();
        let mut t: usize = 0;
        while t < n_find
            invariant
                kb.wf(),
                n_find == values_to_find@.len(),
                t <= n_find,
                forall|k2: int|
                    0 <= k2 < known_values@.len() ==> ((#[trigger] known_values@[k2]).0.idx as int)
                        < kb.params@.len(),
                forall|t2: int|
                    0 <= t2 < values_to_find@.len() ==> ((#[trigger] values_to_find@[t2]).idx as int)
                        < kb.params@.len(),
                g.node_names_unique(),
                g.wf(),
                forall|i: int| 0 <= i < g.nodes@.len() ==> (#[trigger] g.nodes@[i]).wtg@.len() == 0,
                g.sources@.len() == 0,
                defaults_from_params(g, *kb),
                seeded_from(g, *kb, known_values@),
                forall|k2: int|
                    0 <= k2 < known_values@.len() ==> g.has_node(
                        kb.params@[((#[trigger] known_values@[k2]).0.idx) as int].full_name@,
                    ),
                targets_cover(g, *kb, values_to_find@, t as int),
                targets_from(g, *kb, values_to_find@),
                g.targets@.len() <= t,
                forall|u1: int, u2: int|
                    0 <= u1 < g.targets@.len() && 0 <= u2 < g.targets@.len() && u1 != u2 ==> (
                    #[trigger] g.targets@[u1]) != (#[trigger] g.targets@[u2]),
            decreases n_find - t,
        {
            let p: Parameter = values_to_find[t];
            let ghost name = kb.params@[p.idx as int].full_name@;
            let ghost g0 = g;
            let i = g.fetch(kb, p);
            proof {
                if !g0.has_node(name) {
                    assert forall|k2: int|
                        0 <= k2 < known_values@.len() implies kb.params@[((
                        #[trigger] known_values@[k2]).0.idx) as int].full_name@ != name by {
                        if kb.params@[known_values@[k2].0.idx as int].full_name@ == name {
                            assert(g0.has_node(name));
                        }
                    }
                    lemma_last_known_absent(*kb, known_values@, name);
                }
                assert forall|k2: int|
                    0 <= k2 < known_values@.len() implies g.has_node(
                        kb.params@[((#[trigger] known_values@[k2]).0.idx) as int].full_name@,
                    ) by {
                    assert(g0.has_node(
                        kb.params@[known_values@[k2].0.idx as int].full_name@,
                    ));
                }
            }
            let n_t = g.targets.len();
            let mut u: usize = 0;
            let mut found = false;
            while u < n_t
                invariant
                    n_t == g.targets@.len(),
                    u <= n_t,
                    found == exists|u2: int| 0 <= u2 < u && (#[trigger] g.targets@[u2]) == i,
                decreases n_t - u,
            {
                if g.targets[u] == i {
                    found = true;
                }
                u += 1;
            }
            if !found {
                g.targets.push(i);
            }
            proof {
                assert forall|t2: int| 0 <= t2 < t + 1 implies exists|u2: int|
                    0 <= u2 < g.targets@.len() && g.nodes@[g.targets@[u2] as int].full_name@
                        == kb.params@[((#[trigger] values_to_find@[t2]).idx) as int].full_name@ by {
                    if t2 < t {
                        let w = choose|u2: int|
                            0 <= u2 < g0.targets@.len() && g0.nodes@[g0.targets@[u2] as int].full_name@
                                == kb.params@[values_to_find@[t2].idx as int].full_name@;
                        assert(g.targets@[w] == g0.targets@[w]);
                        assert(g.nodes@[g.targets@[w] as int].full_name@ == kb.params@[values_to_find@[t2].idx as int].full_name@);
                    } else {
                        if found {
                            let w = choose|u2: int|
                                0 <= u2 < g0.targets@.len() && (#[trigger] g.targets@[u2]) == i;
                            assert(g.nodes@[g.targets@[w] as int].full_name@ == name);
                        } else {
                            assert(g.targets@.last() == i);
                            assert(g.nodes@[g.targets@[g.targets@.len() - 1] as int].full_name@ == name);
                        }
                    }
                }
            }
            t += 1;
        }
        let n_rules = kb.rules.len();
        let mut r: usize = 0;
        while r < n_rules
            invariant
                kb.wf(),
                n_rules == kb.rules@.len(),
                r <= n_rules,
                forall|k2: int|
                    0 <= k2 < known_values@.len() ==> ((#[trigger] known_values@[k2]).0.idx as int)
                        < kb.params@.len(),
                forall|t2: int|
                    0 <= t2 < values_to_find@.len() ==> ((#[trigger] values_to_find@[t2]).idx as int)
                        < kb.params@.len(),
                g.node_names_unique(),
                g.wf(),
                defaults_from_params(g, *kb),
                seeded_from(g, *kb, known_values@),
                graph_matches_rules(g, *kb, kb.rules@.subrange(0, r as int)),
                forall|k2: int|
                    0 <= k2 < known_values@.len() ==> g.has_node(
                        kb.params@[((#[trigger] known_values@[k2]).0.idx) as int].full_name@,
                    ),
                forall|r2: int|
                    0 <= r2 < r ==> g.has_node(
                        kb.params@[((#[trigger] kb.rules@[r2]).target.idx) as int].full_name@,
                    ),
                targets_cover(g, *kb, values_to_find@, values_to_find@.len() as int),
                targets_from(g, *kb, values_to_find@),
                g.targets@.len() <= values_to_find@.len(),
                forall|u1: int, u2: int|
                    0 <= u1 < g.targets@.len() && 0 <= u2 < g.targets@.len() && u1 != u2 ==> (
                    #[trigger] g.targets@[u1]) != (#[trigger] g.targets@[u2]),
                sources_from_relations(g.sources@, *kb),
                sources_cover(g.sources@, *kb, r as int),
                sources_distinct(g.sources@),
            decreases n_rules - r,
        {
            g.add_rule(kb, known_values, values_to_find, r);
            r += 1;
        }
        proof {
            assert(kb.rules@.subrange(0, n_rules as int) =~= kb.rules@);
        }
        g
    }



    /// Records rule `r`'s relation source, once per distinct source text.
    fn record_source(&mut self, kb: &KnowledgeBase, r: usize)
        requires
            kb.wf(),
            (r as int) < kb.rules@.len(),
            sources_from_relations(old(self).sources@, *kb),
            sources_cover(old(self).sources@, *kb, r as int),
            sources_distinct(old(self).sources@),
        ensures
            final(self).nodes@ == old(self).nodes@,
            final(self).targets@ == old(self).targets@,
            sources_from_relations(final(self).sources@, *kb),
            sources_cover(final(self).sources@, *kb, r as int + 1),
            sources_distinct(final(self).sources@),
    {
        proof {
            assert(kb.rule_wf(r as int));
        }
        let ghost g1 = *self;
        let code = &kb.relations[kb.rules[r].relation.idx].code;
        let n_s = self.sources.len();
        let mut s: usize = 0;
        let mut have = false;
        while s < n_s
            invariant
                n_s == self.sources@.len(),
                s <= n_s,
                r < kb.rules@.len(),
                kb.rule_wf(r as int),
                code@ == kb.relations@[kb.rules@[r as int].relation.idx as int].code@,
                have ==> exists|s2: int|
                    0 <= s2 < self.sources@.len() && (#[trigger] self.sources@[s2])@ == code@,
                !have ==> forall|s2: int|
                    0 <= s2 < s ==> (#[trigger] self.sources@[s2])@ != code@,
            decreases n_s - s,
        {
            if self.sources[s] == *code {
                have = true;
            }
            s += 1;
        }
        if !have {
            self.sources.push(code.clone());
        }
        proof {
            assert forall|r2: int| 0 <= r2 < r + 1 implies exists|s2: int|
                0 <= s2 < self.sources@.len() && self.sources@[s2]@ == kb.relations@[((
                #[trigger] kb.rules@[r2]).relation.idx) as int].code@ by {
                if r2 < r {
                    let w = choose|s2: int|
                        0 <= s2 < g1.sources@.len() && (#[trigger] g1.sources@[s2])@ == kb.relations@[kb.rules@[r2].relation.idx as int].code@;
                    assert(self.sources@[w]@ == kb.relations@[kb.rules@[r2].relation.idx as int].code@);
                } else {
                    if have {
                        let w = choose|s2: int|
                            0 <= s2 < g1.sources@.len() && (#[trigger] g1.sources@[s2])@ == code@;
                        assert(self.sources@[w]@ == code@);
                    } else {
                        assert(self.sources@.last()@ == code@);
                    }
                }
            }
        }
        proof {
            assert forall|s2: int|
                0 <= s2 < self.sources@.len() implies exists|ri: int|
                    0 <= ri < kb.relations@.len() && (#[trigger] self.sources@[s2])@ == kb.relations@[ri].code@ by {
                if s2 < g1.sources@.len() {
                    let w = choose|ri: int|
                        0 <= ri < kb.relations@.len() && g1.sources@[s2]@ == (#[trigger] kb.relations@[ri]).code@;
                    assert(self.sources@[s2]@ == kb.relations@[w].code@);
                } else {
                    assert(self.sources@[s2]@ == kb.relations@[kb.rules@[r as int].relation.idx as int].code@);
                }
            }
            assert forall|s1: int, s2: int|
                #![trigger self.sources@[s1], self.sources@[s2]]
                0 <= s1 < self.sources@.len() && 0 <= s2 < self.sources@.len() && s1 != s2
                    implies self.sources@[s1]@ != self.sources@[s2]@ by {
                if s1 < g1.sources@.len() && s2 < g1.sources@.len() {
                    assert(g1.sources@[s1]@ != g1.sources@[s2]@);
                }
            }
        }
    }


    /// Fetches (or creates) the node for rule `r`'s target parameter.
    #[verifier::rlimit(100)]
    fn fetch_rule_target(
        &mut self,
        kb: &KnowledgeBase,
        known_values: &[(Parameter, serde_json::Value)],
        values_to_find: &[Parameter],
        r: usize,
    ) -> (ti: usize)
        requires
            kb.wf(),
            (r as int) < kb.rules@.len(),
            forall|k2: int|
                0 <= k2 < known_values@.len() ==> ((#[trigger] known_values@[k2]).0.idx as int)
                    < kb.params@.len(),
            forall|t2: int|
                0 <= t2 < values_to_find@.len() ==> ((#[trigger] values_to_find@[t2]).idx as int)
                    < kb.params@.len(),
            old(self).node_names_unique(),
            old(self).wf(),
            defaults_from_params(*old(self), *kb),
            seeded_from(*old(self), *kb, known_values@),
            graph_matches_rules(*old(self), *kb, kb.rules@.subrange(0, r as int)),
            forall|k2: int|
                0 <= k2 < known_values@.len() ==> old(self).has_node(
                    kb.params@[((#[trigger] known_values@[k2]).0.idx) as int].full_name@,
                ),
            forall|r2: int|
                0 <= r2 < r ==> old(self).has_node(
                    kb.params@[((#[trigger] kb.rules@[r2]).target.idx) as int].full_name@,
                ),
            targets_cover(*old(self), *kb, values_to_find@, values_to_find@.len() as int),
            targets_from(*old(self), *kb, values_to_find@),
            forall|u1: int, u2: int|
                0 <= u1 < old(self).targets@.len() && 0 <= u2 < old(self).targets@.len() && u1
                    != u2 ==> (#[trigger] old(self).targets@[u1]) != (#[trigger] old(self).targets@[u2]),
        ensures
            final(self).node_names_unique(),
            final(self).wf(),
            defaults_from_params(*final(self), *kb),
            seeded_from(*final(self), *kb, known_values@),
            graph_matches_rules(*final(self), *kb, kb.rules@.subrange(0, r as int)),
            forall|k2: int|
                0 <= k2 < known_values@.len() ==> final(self).has_node(
                    kb.params@[((#[trigger] known_values@[k2]).0.idx) as int].full_name@,
                ),
            forall|r2: int|
                0 <= r2 < r + 1 ==> final(self).has_node(
                    kb.params@[((#[trigger] kb.rules@[r2]).target.idx) as int].full_name@,
                ),
            targets_cover(*final(self), *kb, values_to_find@, values_to_find@.len() as int),
            targets_from(*final(self), *kb, values_to_find@),
            forall|u1: int, u2: int|
                0 <= u1 < final(self).targets@.len() && 0 <= u2 < final(self).targets@.len() && u1
                    != u2 ==> (#[trigger] final(self).targets@[u1]) != (#[trigger] final(self).targets@[u2]),
            final(self).targets@ == old(self).targets@,
            final(self).sources@ == old(self).sources@,
            (ti as int) < final(self).nodes@.len(),
            final(self).nodes@[ti as int].full_name@ == kb.params@[kb.rules@[r as int].target.idx as int].full_name@,
    {
            proof {
                assert(kb.rule_wf(r as int));
            }
            let target: Parameter = kb.rules[r].target;
            let ghost tname = kb.params@[target.idx as int].full_name@;
            let ghost g0 = *self;
            let ti = self.fetch(kb, target);
            proof {
                if !g0.has_node(tname) {
                    assert forall|k2: int|
                        0 <= k2 < known_values@.len() implies kb.params@[((
                        #[trigger] known_values@[k2]).0.idx) as int].full_name@ != tname by {
                        if kb.params@[known_values@[k2].0.idx as int].full_name@ == tname {
                            assert(g0.has_node(tname));
                        }
                    }
                    lemma_last_known_absent(*kb, known_values@, tname);
                    assert forall|r2: int|
                        0 <= r2 < r implies kb.params@[((#[trigger] kb.rules@.subrange(
                        0,
                        r as int,
                    )[r2]).target.idx) as int].full_name@ != tname by {
                        assert(kb.rules@.subrange(0, r as int)[r2] == kb.rules@[r2]);
                        if kb.params@[kb.rules@[r2].target.idx as int].full_name@ == tname {
                            assert(g0.has_node(tname));
                        }
                    }
                    lemma_rules_targeting_absent(*kb, kb.rules@.subrange(0, r as int), tname);
                    lemma_matches_extend_nodes(g0, *self, *kb, kb.rules@.subrange(0, r as int));
                }
                assert forall|t2: int|
                    0 <= t2 < values_to_find@.len() implies exists|u: int|
                        0 <= u < self.targets@.len() && self.nodes@[self.targets@[u] as int].full_name@
                            == kb.params@[((#[trigger] values_to_find@[t2]).idx) as int].full_name@ by {
                    let w = choose|u: int|
                        0 <= u < g0.targets@.len() && g0.nodes@[g0.targets@[u] as int].full_name@
                            == kb.params@[values_to_find@[t2].idx as int].full_name@;
                    assert(self.nodes@[self.targets@[w] as int].full_name@ == kb.params@[values_to_find@[t2].idx as int].full_name@);
                }
                assert(targets_cover(*self, *kb, values_to_find@, values_to_find@.len() as int));
                assert forall|u: int|
                    0 <= u < self.targets@.len() implies exists|t2: int|
                        0 <= t2 < values_to_find@.len() && self.nodes@[(#[trigger] self.targets@[u]) as int].full_name@
                            == kb.params@[values_to_find@[t2].idx as int].full_name@ by {
                    let t2 = choose|t2: int|
                        0 <= t2 < values_to_find@.len() && g0.nodes@[g0.targets@[u] as int].full_name@
                            == kb.params@[(#[trigger] values_to_find@[t2]).idx as int].full_name@;
                    assert(self.nodes@[self.targets@[u] as int].full_name@ == kb.params@[values_to_find@[t2].idx as int].full_name@);
                }
                assert(targets_from(*self, *kb, values_to_find@));
            }
        proof {
            assert forall|r2: int| 0 <= r2 < r + 1 implies self.has_node(
                kb.params@[((#[trigger] kb.rules@[r2]).target.idx) as int].full_name@,
            ) by {
                if r2 < r {
                    assert(g0.has_node(kb.params@[kb.rules@[r2].target.idx as int].full_name@));
                } else {
                    assert(self.nodes@[ti as int].full_name@ == tname);
                }
            }
        }
        ti
    }

    /// Adds rule `r`'s alternative to its target's node, creating any
    /// missing target or argument nodes, and records the relation's source.
    #[verifier::rlimit(100)]
    #[verifier::spinoff_prover]
    fn add_rule(
        &mut self,
        kb: &KnowledgeBase,
        known_values: &[(Parameter, serde_json::Value)],
        values_to_find: &[Parameter],
        r: usize,
    )
        requires
            kb.wf(),
            (r as int) < kb.rules@.len(),
            forall|k2: int|
                0 <= k2 < known_values@.len() ==> ((#[trigger] known_values@[k2]).0.idx as int)
                    < kb.params@.len(),
            forall|t2: int|
                0 <= t2 < values_to_find@.len() ==> ((#[trigger] values_to_find@[t2]).idx as int)
                    < kb.params@.len(),
            old(self).node_names_unique(),
            old(self).wf(),
            defaults_from_params(*old(self), *kb),
            seeded_from(*old(self), *kb, known_values@),
            graph_matches_rules(*old(self), *kb, kb.rules@.subrange(0, r as int)),
            forall|k2: int|
                0 <= k2 < known_values@.len() ==> old(self).has_node(
                    kb.params@[((#[trigger] known_values@[k2]).0.idx) as int].full_name@,
                ),
            forall|r2: int|
                0 <= r2 < r ==> old(self).has_node(
                    kb.params@[((#[trigger] kb.rules@[r2]).target.idx) as int].full_name@,
                ),
            targets_cover(*old(self), *kb, values_to_find@, values_to_find@.len() as int),
            targets_from(*old(self), *kb, values_to_find@),
            forall|u1: int, u2: int|
                0 <= u1 < old(self).targets@.len() && 0 <= u2 < old(self).targets@.len() && u1
                    != u2 ==> (#[trigger] old(self).targets@[u1]) != (#[trigger] old(self).targets@[u2]),
            sources_from_relations(old(self).sources@, *kb),
            sources_cover(old(self).sources@, *kb, r as int),
            sources_distinct(old(self).sources@),
        ensures
            final(self).node_names_unique(),
            final(self).wf(),
            defaults_from_params(*final(self), *kb),
            seeded_from(*final(self), *kb, known_values@),
            graph_matches_rules(*final(self), *kb, kb.rules@.subrange(0, r as int + 1)),
            forall|k2: int|
                0 <= k2 < known_values@.len() ==> final(self).has_node(
                    kb.params@[((#[trigger] known_values@[k2]).0.idx) as int].full_name@,
                ),
            forall|r2: int|
                0 <= r2 < r + 1 ==> final(self).has_node(
                    kb.params@[((#[trigger] kb.rules@[r2]).target.idx) as int].full_name@,
                ),
            targets_cover(*final(self), *kb, values_to_find@, values_to_find@.len() as int),
            targets_from(*final(self), *kb, values_to_find@),
            forall|u1: int, u2: int|
                0 <= u1 < final(self).targets@.len() && 0 <= u2 < final(self).targets@.len() && u1
                    != u2 ==> (#[trigger] final(self).targets@[u1]) != (#[trigger] final(self).targets@[u2]),
            sources_from_relations(final(self).sources@, *kb),
            sources_cover(final(self).sources@, *kb, r as int + 1),
            sources_distinct(final(self).sources@),
            final(self).targets@ == old(self).targets@,
    {
            let ti = self.fetch_rule_target(kb, known_values, values_to_find, r);
            proof {
                assert(kb.rule_wf(r as int));
            }
            let n_args = kb.rules[r].args.len();
            let mut args_v: Vec<usize> = Vec::new();
            let mut b: usize = 0;
            while b < n_args
                invariant
                    kb.wf(),
                    r < kb.rules@.len(),
                    kb.rule_wf(r as int),
                    n_args == kb.rules@[r as int].args@.len(),
                    b <= n_args,
                    forall|k2: int|
                        0 <= k2 < known_values@.len() ==> ((#[trigger] known_values@[k2]).0.idx as int)
                            < kb.params@.len(),
                    self.node_names_unique(),
                    self.wf(),
                    defaults_from_params(*self, *kb),
                    seeded_from(*self, *kb, known_values@),
                    graph_matches_rules(*self, *kb, kb.rules@.subrange(0, r as int)),
                    forall|k2: int|
                        0 <= k2 < known_values@.len() ==> self.has_node(
                            kb.params@[((#[trigger] known_values@[k2]).0.idx) as int].full_name@,
                        ),
                    forall|r2: int|
                        0 <= r2 < r + 1 ==> self.has_node(
                            kb.params@[((#[trigger] kb.rules@[r2]).target.idx) as int].full_name@,
                        ),
                    (ti as int) < self.nodes@.len(),
                    self.nodes@[ti as int].full_name@ == kb.params@[kb.rules@[r as int].target.idx as int].full_name@,
                    args_v@.len() == b,
                    forall|y: int|
                        0 <= y < b ==> (#[trigger] args_v@[y] as int) < self.nodes@.len()
                            && self.nodes@[args_v@[y] as int].full_name@ == kb.params@[kb.rules@[r as int].args@[y].idx as int].full_name@,
                    targets_cover(*self, *kb, values_to_find@, values_to_find@.len() as int),
                    targets_from(*self, *kb, values_to_find@),
                    forall|u1: int, u2: int|
                        0 <= u1 < self.targets@.len() && 0 <= u2 < self.targets@.len() && u1 != u2
                            ==> (#[trigger] self.targets@[u1]) != (#[trigger] self.targets@[u2]),
                    sources_from_relations(self.sources@, *kb),
                    sources_cover(self.sources@, *kb, r as int),
                    sources_distinct(self.sources@),
                    self.targets@ == old(self).targets@,
                decreases n_args - b,
            {
                let ap: Parameter = kb.rules[r].args[b];
                let ghost aname = kb.params@[ap.idx as int].full_name@;
                let ghost g0 = *self;
                let ai = self.fetch(kb, ap);
                proof {
                    if !g0.has_node(aname) {
                        assert forall|k2: int|
                            0 <= k2 < known_values@.len() implies kb.params@[((
                            #[trigger] known_values@[k2]).0.idx) as int].full_name@ != aname by {
                            if kb.params@[known_values@[k2].0.idx as int].full_name@ == aname {
                                assert(g0.has_node(aname));
                            }
                        }
                        lemma_last_known_absent(*kb, known_values@, aname);
                        assert forall|r2: int|
                            0 <= r2 < r implies kb.params@[((#[trigger] kb.rules@.subrange(
                            0,
                            r as int,
                        )[r2]).target.idx) as int].full_name@ != aname by {
                            assert(kb.rules@.subrange(0, r as int)[r2] == kb.rules@[r2]);
                            if kb.params@[kb.rules@[r2].target.idx as int].full_name@ == aname {
                                assert(g0.has_node(aname));
                            }
                        }
                        lemma_rules_targeting_absent(*kb, kb.rules@.subrange(0, r as int), aname);
                        lemma_matches_extend_nodes(g0, *self, *kb, kb.rules@.subrange(0, r as int));
                    }
                    assert forall|t2: int|
                        0 <= t2 < values_to_find@.len() implies exists|u: int|
                            0 <= u < self.targets@.len() && self.nodes@[self.targets@[u] as int].full_name@
                                == kb.params@[((#[trigger] values_to_find@[t2]).idx) as int].full_name@ by {
                        let w = choose|u: int|
                            0 <= u < g0.targets@.len() && g0.nodes@[g0.targets@[u] as int].full_name@
                                == kb.params@[values_to_find@[t2].idx as int].full_name@;
                        assert(self.nodes@[self.targets@[w] as int].full_name@ == kb.params@[values_to_find@[t2].idx as int].full_name@);
                    }
                    assert forall|u: int|
                        0 <= u < self.targets@.len() implies exists|t2: int|
                            0 <= t2 < values_to_find@.len() && self.nodes@[(#[trigger] self.targets@[u]) as int].full_name@
                                == kb.params@[values_to_find@[t2].idx as int].full_name@ by {
                        let t2 = choose|t2: int|
                            0 <= t2 < values_to_find@.len() && g0.nodes@[g0.targets@[u] as int].full_name@
                                == kb.params@[(#[trigger] values_to_find@[t2]).idx as int].full_name@;
                        assert(self.nodes@[self.targets@[u] as int].full_name@ == kb.params@[values_to_find@[t2].idx as int].full_name@);
                    }
                }
                args_v.push(ai);
                b += 1;
            }
            let fun_name = kb.relations[kb.rules[r].relation.idx].name.clone();
            let way = WayToGet { fun_name, args: args_v };
            let ghost way_g = way;
            let ghost g1 = *self;
            self.nodes[ti].wtg.push(way);
            proof {
                lemma_push_way_frame(
                    g1,
                    *self,
                    *kb,
                    known_values@,
                    values_to_find@,
                    r as int,
                    way_g,
                    ti as int,
                );
            }
            let ghost g3 = *self;
            self.record_source(kb, r);
            proof {
                lemma_graph_facts_same_nodes(
                    g3,
                    *self,
                    *kb,
                    known_values@,
                    values_to_find@,
                    kb.rules@.subrange(0, r as int + 1),
                );
            }
    }


    /// Resolves every target and collects, in target order, the names and
    /// values of those that resolved; unresolvable targets are omitted, and
    /// their failure aborts nothing else.
    pub(crate) fn go<E: Evaluator>(&mut self, ev: &mut E) -> (r: Vec<
        (String, serde_json::Value),
    >)
        requires
            old(self).wf(),
            forall|i: int|
                0 <= i < old(self).nodes@.len() ==> !((#[trigger] old(self).nodes@[i]).state
                    is InProgress),
            forall|i: int|
                0 <= i < old(self).nodes@.len() ==> !((#[trigger] old(self).nodes@[i]).state
                    is Failed),
        ensures
            final(self).wf(),
            same_shape(*old(self), *final(self)),
            states_evolve(*old(self), *final(self)),
            decisions_grounded(*old(self), *final(self)),
            pairs_match(r@, collected(*final(self), final(self).targets@.len() as int)),
            r@.len() <= old(self).targets@.len(),
            forall|u: int|
                0 <= u < final(self).targets@.len() ==> (final(self).nodes@[(
                #[trigger] final(self).targets@[u]) as int].state is Resolved || final(self).nodes@[final(self).targets@[u] as int].state
                    is Failed),
            forall|u: int|
                0 <= u < final(self).targets@.len() ==> ((final(self).nodes@[(
                #[trigger] final(self).targets@[u]) as int].state is Failed) ==> final(self).nodes@[final(self).targets@[u] as int].default
                    is None),
    {
        let n_t = self.targets.len();
        let mut out: Vec<(String, serde_json::Value)> = Vec::new();
        let mut t: usize = 0;
        while t < n_t
            invariant
                old(self).wf(),
                forall|i: int|
                    0 <= i < old(self).nodes@.len() ==> !((#[trigger] old(self).nodes@[i]).state
                        is Failed),
                self.wf(),
                same_shape(*old(self), *self),
                states_evolve(*old(self), *self),
                decisions_grounded(*old(self), *self),
                forall|i: int|
                    0 <= i < self.nodes@.len() ==> !((#[trigger] self.nodes@[i]).state
                        is InProgress),
                n_t == self.targets@.len(),
                t <= n_t,
                forall|u: int|
                    0 <= u < t ==> (self.nodes@[(#[trigger] self.targets@[u]) as int].state
                        is Resolved || self.nodes@[self.targets@[u] as int].state is Failed),
                pairs_match(out@, collected(*self, t as int)),
                out@.len() <= t,
            decreases n_t - t,
        {
            let ti = self.targets[t];
            let ghost before = *self;
            let res = self.calc_node(ti, ev);
            proof {
                lemma_collected_stable(before, *self, t as int);
                lemma_grounded_trans(*old(self), before, *self);
            }
            match res {
                Ok(v) => {
                    let name = self.nodes[ti].full_name.clone();
                    out.push((name, v));
                    proof {
                        let c = collected(*self, t + 1);
                        assert(c == collected(*self, t as int).push(
                            (self.nodes@[ti as int].full_name@, v),
                        ));
                        assert forall|m: int|
                            0 <= m < out@.len() implies (#[trigger] out@[m]).0@ == c[m].0
                                && out@[m].1 == c[m].1 by {
                            if m < out@.len() - 1 {
                                assert(out@[m] == out@.drop_last()[m]);
                            }
                        }
                    }
                },
                Err(_) => {
                    proof {
                        assert(collected(*self, t + 1) == collected(*self, t as int));
                    }
                },
            }
            t += 1;
        }
        out
    }

    /// Fetches the node bearing this parameter's fully-qualified name,
    /// creating it — unresolved, without alternatives, carrying the
    /// parameter's declared default — when absent.
    fn fetch(&mut self, kb: &KnowledgeBase, p: Parameter) -> (i: usize)
        requires
            old(self).node_names_unique(),
            kb.wf(),
            (p.idx as int) < kb.params@.len(),
        ensures
            final(self).node_names_unique(),
            old(self).wf() ==> final(self).wf(),
            (i as int) < final(self).nodes@.len(),
            final(self).nodes@[i as int].full_name@ == kb.params@[p.idx as int].full_name@,
            old(self).has_node(kb.params@[p.idx as int].full_name@) ==> *final(self) == *old(self),
            !old(self).has_node(kb.params@[p.idx as int].full_name@) ==> {
                &&& final(self).nodes@.len() == old(self).nodes@.len() + 1
                &&& i == old(self).nodes@.len()
                &&& final(self).nodes@.drop_last() == old(self).nodes@
                &&& final(self).nodes@.last().full_name@ == kb.params@[p.idx as int].full_name@
                &&& final(self).nodes@.last().default == kb.params@[p.idx as int].default
                &&& final(self).nodes@.last().wtg@.len() == 0
                &&& final(self).nodes@.last().state is Unresolved
            },
            forall|j: int|
                0 <= j < old(self).nodes@.len() ==> final(self).nodes@[j] == old(self).nodes@[j],
            forall|nm: Seq<char>| #[trigger]
                old(self).has_node(nm) ==> final(self).has_node(nm),
            final(self).targets@ == old(self).targets@,
            final(self).sources@ == old(self).sources@,
    {
        let name = kb.params[p.idx].full_name.clone();
        let n = self.nodes.len();
        let mut i: usize = 0;
        while i < n
            invariant
                *self == *old(self),
                old(self).node_names_unique(),
                n == self.nodes@.len(),
                i <= n,
                (p.idx as int) < kb.params@.len(),
                name@ == kb.params@[p.idx as int].full_name@,
                forall|k: int| 0 <= k < i ==> (#[trigger] self.nodes@[k].full_name@) != name@,
            decreases n - i,
        {
            if self.nodes[i].full_name == name {
                return i;
            }
            i += 1;
        }
        let default = match &kb.params[p.idx].default {
            Some(d) => Some(clone_value(d)),
            None => None,
        };
        self.nodes.push(
            Node { full_name: name, default, wtg: Vec::new(), state: NodeState::Unresolved },
        );
        proof {
            assert(self.nodes@.drop_last() =~= old(self).nodes@);
            assert(!old(self).has_node(kb.params@[p.idx as int].full_name@));
            assert forall|a: int, b: int|
                0 <= a < self.nodes@.len() && 0 <= b < self.nodes@.len() && a != b implies
                self.nodes@[a].full_name@ != self.nodes@[b].full_name@ by {
                if a < old(self).nodes@.len() && b < old(self).nodes@.len() {
                    assert(old(self).nodes@[a] == self.nodes@[a]);
                    assert(old(self).nodes@[b] == self.nodes@[b]);
                }
            }
            assert forall|nm: Seq<char>| old(self).has_node(nm) implies final(self).has_node(
                nm,
            ) by {
                let w = choose|j: int|
                    0 <= j < old(self).nodes@.len() && (#[trigger] old(self).nodes@[j].full_name@)
                        == nm;
                assert(final(self).nodes@[w].full_name@ == nm);
            }
            if old(self).wf() {
                assert forall|j: int| 0 <= j < self.nodes@.len() implies #[trigger] self.node_wf(
                    j,
                ) by {
                    if j < old(self).nodes@.len() {
                        assert(old(self).node_wf(j));
                        assert(self.nodes@[j] == old(self).nodes@[j]);
                        assert forall|x: int, y: int|
                            0 <= x < self.nodes@[j].wtg@.len() && 0 <= y < self.nodes@[j].wtg@[x].args@.len()
                                implies (#[trigger] self.nodes@[j].wtg@[x].args@[y] as int)
                                < self.nodes@.len() by {
                            assert((old(self).nodes@[j].wtg@[x].args@[y] as int) < old(
                                self,
                            ).nodes@.len());
                        }
                    } else {
                        assert(self.nodes@[j].wtg@.len() == 0);
                    }
                }
            }
        }
        n
    }


    /// Reads the resolved values of alternative `a`'s argument nodes, in
    /// order: exactly what the relation invocation is handed.
    fn collect_args(&self, idx: usize, a: usize) -> (vals: Vec<serde_json::Value>)
        requires
            self.wf(),
            (idx as int) < self.nodes@.len(),
            (a as int) < self.nodes@[idx as int].wtg@.len(),
            forall|k: int|
                0 <= k < self.nodes@[idx as int].wtg@[a as int].args@.len() ==> self.nodes@[(
                #[trigger] self.nodes@[idx as int].wtg@[a as int].args@[k]) as int].state
                    is Resolved,
        ensures
            vals@.len() == self.nodes@[idx as int].wtg@[a as int].args@.len(),
            forall|m: int|
                0 <= m < vals@.len() ==> self.nodes@[(#[trigger] self.nodes@[idx as int].wtg@[a as int].args@[m]) as int].state
                    == NodeState::Resolved(vals@[m]),
    {
        let n_args = self.nodes[idx].wtg[a].args.len();
        let mut vals: Vec<serde_json::Value> = Vec::new();
        let mut m: usize = 0;
        while m < n_args
            invariant
                self.wf(),
                (idx as int) < self.nodes@.len(),
                (a as int) < self.nodes@[idx as int].wtg@.len(),
                n_args == self.nodes@[idx as int].wtg@[a as int].args@.len(),
                m <= n_args,
                vals@.len() == m,
                forall|k: int|
                    0 <= k < n_args ==> self.nodes@[(#[trigger] self.nodes@[idx as int].wtg@[a as int].args@[k]) as int].state
                        is Resolved,
                forall|k: int|
                    0 <= k < m ==> self.nodes@[(#[trigger] self.nodes@[idx as int].wtg@[a as int].args@[k]) as int].state
                        == NodeState::Resolved(vals@[k]),
            decreases n_args - m,
        {
            proof {
                assert(self.node_wf(idx as int));
            }
            let arg_idx = self.nodes[idx].wtg[a].args[m];
            match &self.nodes[arg_idx].state {
                NodeState::Resolved(v) => {
                    vals.push(clone_value(v));
                },
                _ => {
                    proof {
                        assert(false);
                    }
                },
            }
            m += 1;
        }
        vals
    }

    /// Resolves one node, recursively and at most once per solve call.
    ///
    /// A node already decided is returned as it stands.  A node met again
    /// while in progress reports failure without touching anything, so the
    /// recursion, whose depth is bounded by the nodes not yet on the path,
    /// terminates on cyclic alternatives.  A fresh node tries its
    /// alternatives in registration order and ends resolved or failed; it can
    /// only fail if its parameter declared no default, and with no
    /// alternatives at all it adopts the default exactly, touching no other
    /// node.
    #[verifier::spinoff_prover]
    fn calc_node<E: Evaluator>(&mut self, idx: usize, ev: &mut E) -> (r: Result<
        serde_json::Value,
        KnowledgeBaseError,
    >)
        requires
            old(self).wf(),
            (idx as int) < old(self).nodes@.len(),
        ensures
            final(self).wf(),
            same_shape(*old(self), *final(self)),
            states_evolve(*old(self), *final(self)),
            decisions_grounded(*old(self), *final(self)),
            match final(self).nodes@[idx as int].state {
                NodeState::Resolved(v) => (old(self).nodes@[idx as int].state is Unresolved) ==> (
                old(self).nodes@[idx as int].default == Some(v) || exists|a: int|
                    0 <= a < final(self).nodes@[idx as int].wtg@.len() && alt_args_resolved(
                        *final(self),
                        idx as int,
                        a,
                    )),
                _ => true,
            },
            match r {
                Ok(v) => final(self).nodes@[idx as int].state == NodeState::Resolved(v),
                Err(e) => {
                    &&& e is SolveError
                    &&& !(final(self).nodes@[idx as int].state is Resolved)
                },
            },
            old(self).nodes@[idx as int].state is Resolved ==> *final(self) == *old(self),
            old(self).nodes@[idx as int].state is Failed ==> *final(self) == *old(self) && r
                is Err,
            old(self).nodes@[idx as int].state is InProgress ==> *final(self) == *old(self) && r
                is Err,
            old(self).nodes@[idx as int].state is Unresolved ==> (final(self).nodes@[idx as int].state
                is Resolved || final(self).nodes@[idx as int].state is Failed),
            (old(self).nodes@[idx as int].state is Unresolved && final(self).nodes@[idx as int].state
                is Failed) ==> old(self).nodes@[idx as int].default is None,
            (old(self).nodes@[idx as int].state is Unresolved && old(self).nodes@[idx as int].wtg@.len()
                == 0) ==> {
                &&& match old(self).nodes@[idx as int].default {
                    Some(d) => final(self).nodes@[idx as int].state == NodeState::Resolved(d),
                    None => final(self).nodes@[idx as int].state is Failed,
                }
                &&& forall|j: int|
                    0 <= j < old(self).nodes@.len() && j != idx ==> final(self).nodes@[j] == old(
                        self,
                    ).nodes@[j]
            },
        decreases self.nodes@.len() - ip_count(self.nodes@),
{
        proof {
            lemma_ip_count_le(self.nodes@);
        }
        match &self.nodes[idx].state {
            NodeState::Resolved(v) => {
                return Ok(clone_value(v));
            },
            NodeState::Failed => {
                return Err(KnowledgeBaseError::SolveError);
            },
            NodeState::InProgress => {
                return Err(KnowledgeBaseError::SolveError);
            },
            NodeState::Unresolved => {},
        }
        self.nodes[idx].state = NodeState::InProgress;
        proof {
            lemma_ip_count_update(old(self).nodes@, idx as int, self.nodes@[idx as int]);
            lemma_update_state_shape(*old(self), *self, idx as int);
        }
        let n_alts = self.nodes[idx].wtg.len();
        let mut a: usize = 0;
        while a < n_alts
            invariant
                old(self).wf(),
                (idx as int) < old(self).nodes@.len(),
                old(self).nodes@[idx as int].state is Unresolved,
                self.wf(),
                same_shape(*old(self), *self),
                forall|i: int|
                    0 <= i < old(self).nodes@.len() && i != idx ==> {
                        &&& (old(self).nodes@[i].state is Resolved ==> (
                        #[trigger] self.nodes@[i]).state == old(self).nodes@[i].state)
                        &&& (old(self).nodes@[i].state is Failed ==> self.nodes@[i].state
                            is Failed)
                        &&& ((old(self).nodes@[i].state is InProgress) <==> (self.nodes@[i].state
                            is InProgress))
                    },
                self.nodes@[idx as int].state is InProgress,
                decisions_grounded(*old(self), *self),
                n_alts == self.nodes@[idx as int].wtg@.len(),
                a <= n_alts,
                ip_count(self.nodes@) == ip_count(old(self).nodes@) + 1,
                a == 0 ==> forall|j: int|
                    0 <= j < old(self).nodes@.len() && j != idx ==> self.nodes@[j] == old(
                        self,
                    ).nodes@[j],
            decreases n_alts - a,
        {
            let n_args = self.nodes[idx].wtg[a].args.len();
            let mut b: usize = 0;
            let mut args_ok = true;
            while b < n_args && args_ok
                invariant
                    old(self).wf(),
                    (idx as int) < old(self).nodes@.len(),
                    old(self).nodes@[idx as int].state is Unresolved,
                    self.wf(),
                    same_shape(*old(self), *self),
                    forall|i: int|
                        0 <= i < old(self).nodes@.len() && i != idx ==> {
                            &&& (old(self).nodes@[i].state is Resolved ==> (
                            #[trigger] self.nodes@[i]).state == old(self).nodes@[i].state)
                            &&& (old(self).nodes@[i].state is Failed ==> self.nodes@[i].state
                                is Failed)
                            &&& ((old(self).nodes@[i].state is InProgress) <==> (
                            self.nodes@[i].state is InProgress))
                        },
                    self.nodes@[idx as int].state is InProgress,
                    decisions_grounded(*old(self), *self),
                    n_alts == self.nodes@[idx as int].wtg@.len(),
                    a < n_alts,
                    n_args == self.nodes@[idx as int].wtg@[a as int].args@.len(),
                    b <= n_args,
                    ip_count(self.nodes@) == ip_count(old(self).nodes@) + 1,
                    args_ok ==> forall|m: int|
                        0 <= m < b ==> self.nodes@[(#[trigger] self.nodes@[idx as int].wtg@[a as int].args@[m]) as int].state is Resolved,
                decreases n_args - b,
            {
                proof {
                    assert(self.node_wf(idx as int));
                    lemma_ip_count_le(self.nodes@);
                }
                let arg_idx = self.nodes[idx].wtg[a].args[b];
                let ghost before = *self;
                let res = self.calc_node(arg_idx, ev);
                proof {
                    lemma_ip_count_pointwise(before.nodes@, self.nodes@);
                    lemma_grounded_trans(*old(self), before, *self);
                }
                match res {
                    Ok(_) => {},
                    Err(_) => {
                        args_ok = false;
                    },
                }
                b += 1;
            }
            if args_ok && b == n_args {
                let vals = self.collect_args(idx, a);
                let fun_name = self.nodes[idx].wtg[a].fun_name.clone();
                match ev.call(fun_name.as_str(), vals) {
                    Some(v) => {
                        let out = clone_value(&v);
                        let ghost before = *self;
                        self.nodes[idx].state = NodeState::Resolved(v);
                        proof {
                            lemma_ip_count_update(
                                before.nodes@,
                                idx as int,
                                self.nodes@[idx as int],
                            );
                            lemma_update_state_shape(before, *self, idx as int);
                            assert forall|m: int|
                                0 <= m < self.nodes@[idx as int].wtg@[a as int].args@.len()
                                    implies self.nodes@[(#[trigger] self.nodes@[idx as int].wtg@[a as int].args@[m]) as int].state
                                    is Resolved by {
                                let w = before.nodes@[idx as int].wtg@[a as int].args@[m] as int;
                                assert(before.node_wf(idx as int));
                                assert(before.nodes@[w].state is Resolved);
                                if w != idx {
                                    assert(self.nodes@[w] == before.nodes@[w]);
                                }
                            }
                            assert(alt_args_resolved(*self, idx as int, a as int));
                        }
                        return Ok(out);
                    },
                    None => {},
                }
            }
            a += 1;
        }
        let has_default = match &self.nodes[idx].default {
            Some(_) => true,
            None => false,
        };
        if has_default {
            let d = match &self.nodes[idx].default {
                Some(d) => clone_value(d),
                None => unreached(),
            };
            let out = clone_value(&d);
            let ghost before = *self;
            self.nodes[idx].state = NodeState::Resolved(d);
            proof {
                lemma_ip_count_update(before.nodes@, idx as int, self.nodes@[idx as int]);
                lemma_update_state_shape(before, *self, idx as int);
            }
            Ok(out)
        } else {
            let ghost before = *self;
            self.nodes[idx].state = NodeState::Failed;
            proof {
                lemma_ip_count_update(before.nodes@, idx as int, self.nodes@[idx as int]);
                lemma_update_state_shape(before, *self, idx as int);
            }
            Err(KnowledgeBaseError::SolveError)
        }
    }
}

} // verus!
