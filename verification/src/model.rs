//! The schema of a knowledge base: classes, parameters, relations, rules.
//!
//! Classes and parameters live in arenas owned by the knowledge base; the
//! handle types `KBClass`, `Parameter` and `Relation` are indices into those
//! arenas.  Every entity carries its fully-qualified name, fixed at creation:
//! the names of its ancestor chain joined with a separator.

use vstd::prelude::*;
use vstd::slice::slice_to_vec;
use vstd::string::*;

use crate::parse::process_function_string;
use crate::parse::spec_parse_signature;
use crate::solver::lemma_solve_facts;
use crate::solver::last_known;
use crate::solver::rules_targeting;
use crate::solver::Evaluator;
use crate::solver::Graph;
use crate::KnowledgeBaseError;

verus! {

/// The separator between the segments of a fully-qualified name.
pub open spec fn sep() -> Seq<char> {
    "/"@
}

/// A named namespace node of the schema.
pub struct ClassEntry {
    pub name: String,
    pub description: String,
    /// The owning class, none for a root class.
    pub parent: Option<usize>,
    /// The names of the ancestor chain joined with the separator; fixed at
    /// creation, since classes are never renamed or reparented.
    pub full_name: String,
}

/// A named, optionally defaulted value slot owned by one class.
pub struct ParamEntry {
    pub name: String,
    pub description: String,
    pub owner: usize,
    pub full_name: String,
    pub default: Option<serde_json::Value>,
}

/// A named fixed-arity pure function, kept as evaluator source text.
pub struct RelationEntry {
    pub name: String,
    pub args_count: usize,
    pub code: String,
    pub description: String,
}

/// A handle to a class of a knowledge base.
#[derive(Clone, Copy)]
pub struct KBClass {
    pub idx: usize,
}

/// A handle to a parameter of a knowledge base.
#[derive(Clone, Copy)]
pub struct Parameter {
    pub idx: usize,
}

/// A handle to a relation of a knowledge base.
#[derive(Clone, Copy)]
pub struct Relation {
    pub idx: usize,
}

/// One way to derive a target parameter: a relation applied to an ordered
/// list of argument parameters.
pub struct Rule {
    pub name: String,
    pub description: String,
    pub target: Parameter,
    pub args: Vec<Parameter>,
    pub relation: Relation,
}

impl Rule {
    pub fn new(name: &str, description: &str, target: Parameter, args: &[Parameter], relation: Relation) -> (r: Rule)
        ensures
            r.name@ == name@,
            r.description@ == description@,
            r.target == target,
            r.args@ == args@,
            r.relation == relation,
    {
        Rule {
            name: name.to_owned(),
            description: description.to_owned(),
            target,
            args: slice_to_vec(args),
            relation,
        }
    }
}

/// The full schema: the class tree, the parameter arena, the relation
/// registry and the ordered rule list.
pub struct KnowledgeBase {
    pub classes: Vec<ClassEntry>,
    pub params: Vec<ParamEntry>,
    pub relations: Vec<RelationEntry>,
    pub rules: Vec<Rule>,
}

impl KnowledgeBase {
    /// A class entry's parent comes earlier in the arena and its cached
    /// fully-qualified name extends the parent's.
    pub open spec fn class_wf(self, i: int) -> bool {
        match self.classes@[i].parent {
            None => self.classes@[i].full_name@ == self.classes@[i].name@,
            Some(p) => {
                &&& (p as int) < i
                &&& self.classes@[i].full_name@ == self.classes@[p as int].full_name@ + sep()
                    + self.classes@[i].name@
            },
        }
    }

    pub open spec fn param_wf(self, i: int) -> bool {
        &&& (self.params@[i].owner as int) < self.classes@.len()
        &&& self.params@[i].full_name@ == self.classes@[self.params@[i].owner as int].full_name@
            + sep() + self.params@[i].name@
    }

    pub open spec fn rule_wf(self, i: int) -> bool {
        &&& (self.rules@[i].relation.idx as int) < self.relations@.len()
        &&& (self.rules@[i].target.idx as int) < self.params@.len()
        &&& forall|k: int|
            0 <= k < self.rules@[i].args@.len() ==> (#[trigger] self.rules@[i].args@[k].idx as int)
                < self.params@.len()
        &&& self.rules@[i].args@.len() == self.relations@[self.rules@[i].relation.idx as int].args_count
    }

    /// Child class names are unique under one parent, parameter names are
    /// unique within one class, relation names are unique globally.
    pub open spec fn wf(self) -> bool {
        &&& forall|i: int| 0 <= i < self.classes@.len() ==> #[trigger] self.class_wf(i)
        &&& forall|i: int| 0 <= i < self.params@.len() ==> #[trigger] self.param_wf(i)
        &&& forall|i: int, j: int|
            #![trigger self.classes@[i], self.classes@[j]]
            0 <= i < self.classes@.len() && 0 <= j < self.classes@.len() && i != j
                && self.classes@[i].parent == self.classes@[j].parent
                ==> self.classes@[i].name@ != self.classes@[j].name@
        &&& forall|i: int, j: int|
            #![trigger self.params@[i], self.params@[j]]
            0 <= i < self.params@.len() && 0 <= j < self.params@.len() && i != j
                && self.params@[i].owner == self.params@[j].owner
                ==> self.params@[i].name@ != self.params@[j].name@
        &&& forall|i: int, j: int|
            #![trigger self.relations@[i], self.relations@[j]]
            0 <= i < self.relations@.len() && 0 <= j < self.relations@.len() && i != j
                ==> self.relations@[i].name@ != self.relations@[j].name@
        &&& forall|i: int|
            0 <= i < self.relations@.len() ==> (#[trigger] self.relations@[i].args_count) >= 1
        &&& forall|i: int| 0 <= i < self.rules@.len() ==> #[trigger] self.rule_wf(i)
    }

    /// Some root class already bears this name.
    pub open spec fn has_root_class(self, name: Seq<char>) -> bool {
        exists|i: int|
            0 <= i < self.classes@.len() && (#[trigger] self.classes@[i].parent) is None
                && self.classes@[i].name@ == name
    }

    /// Some child of class `parent` already bears this name.
    pub open spec fn has_child_class(self, parent: int, name: Seq<char>) -> bool {
        exists|i: int|
            0 <= i < self.classes@.len() && (#[trigger] self.classes@[i].parent) == Some(
                parent as usize,
            ) && self.classes@[i].name@ == name
    }

    /// Some parameter of class `owner` already bears this name.
    pub open spec fn has_param(self, owner: int, name: Seq<char>) -> bool {
        exists|i: int|
            0 <= i < self.params@.len() && (#[trigger] self.params@[i].owner as int) == owner
                && self.params@[i].name@ == name
    }

    /// Some relation already bears this name.
    pub open spec fn has_relation(self, name: Seq<char>) -> bool {
        exists|i: int|
            0 <= i < self.relations@.len() && (#[trigger] self.relations@[i].name@) == name
    }

    pub fn new() -> (kb: KnowledgeBase)
        ensures
            kb.wf(),
            kb.classes@.len() == 0,
            kb.params@.len() == 0,
            kb.relations@.len() == 0,
            kb.rules@.len() == 0,
    {
        KnowledgeBase { classes: Vec::new(), params: Vec::new(), relations: Vec::new(), rules: Vec::new() }
    }

    /// Registers a root class.  Fails, changing nothing, exactly when a root
    /// class of this name exists.
    pub fn new_class(&mut self, name: &str, description: &str) -> (r: Result<
        KBClass,
        KnowledgeBaseError,
    >)
        requires
            old(self).wf(),
        ensures
            final(self).wf(),
            match r {
                Ok(c) => {
                    &&& !old(self).has_root_class(name@)
                    &&& c.idx == old(self).classes@.len()
                    &&& final(self).classes@.len() == old(self).classes@.len() + 1
                    &&& final(self).classes@.subrange(0, old(self).classes@.len() as int) == old(self).classes@
                    &&& final(self).classes@.last().name@ == name@
                    &&& final(self).classes@.last().description@ == description@
                    &&& final(self).classes@.last().parent is None
                    &&& final(self).classes@.last().full_name@ == name@
                    &&& final(self).params@ == old(self).params@
                    &&& final(self).relations@ == old(self).relations@
                    &&& final(self).rules@ == old(self).rules@
                },
                Err(e) => {
                    &&& e is NameAlreadyExists
                    &&& old(self).has_root_class(name@)
                    &&& *final(self) == *old(self)
                },
            },
    {
        let name_s: String = name.to_owned();
        let n = self.classes.len();
        let mut i: usize = 0;
        while i < n
            invariant
                *self == *old(self),
                old(self).wf(),
                n == self.classes@.len(),
                i <= n,
                name_s@ == name@,
                forall|k: int|
                    0 <= k < i ==> !((#[trigger] self.classes@[k].parent) is None
                        && self.classes@[k].name@ == name@),
            decreases n - i,
        {
            let is_root = match self.classes[i].parent {
                None => true,
                Some(_) => false,
            };
            if is_root && self.classes[i].name == name_s {
                return Err(KnowledgeBaseError::NameAlreadyExists);
            }
            i += 1;
        }
        let entry = ClassEntry {
            name: name_s,
            description: description.to_owned(),
            parent: None,
            full_name: name.to_owned(),
        };
        self.classes.push(entry);
        proof {
            assert(final(self).classes@.subrange(0, old(self).classes@.len() as int) =~= old(self).classes@);
            assert forall|k: int| 0 <= k < final(self).classes@.len() implies final(self).class_wf(k) by {
                if k < old(self).classes@.len() {
                    assert(old(self).class_wf(k));
                }
            }
            assert forall|k: int| 0 <= k < final(self).params@.len() implies final(self).param_wf(
                k,
            ) by {
                assert(old(self).param_wf(k));
            }
            assert forall|k: int| 0 <= k < final(self).rules@.len() implies final(self).rule_wf(
                k,
            ) by {
                assert(old(self).rule_wf(k));
            }
        }
        Ok(KBClass { idx: n })
    }

    /// Registers a relation from its source text, without consulting the
    /// evaluator: the signature must parse, declare at least one parameter,
    /// and carry a fresh name.
    pub fn register_relation(&mut self, js_function: &str, description: &str) -> (r: Result<
        Relation,
        KnowledgeBaseError,
    >)
        requires
            old(self).wf(),
        ensures
            final(self).wf(),
            match r {
                Ok(rel) => {
                    &&& match spec_parse_signature(js_function@) {
                        Some(p) => {
                            &&& p.1 >= 1
                            &&& !old(self).has_relation(p.0)
                            &&& final(self).relations@.last().name@ == p.0
                            &&& final(self).relations@.last().args_count == p.1
                        },
                        None => false,
                    }
                    &&& rel.idx == old(self).relations@.len()
                    &&& final(self).relations@.len() == old(self).relations@.len() + 1
                    &&& final(self).relations@.subrange(0, old(self).relations@.len() as int)
                        == old(self).relations@
                    &&& final(self).relations@.last().code@ == js_function@
                    &&& final(self).relations@.last().description@ == description@
                    &&& final(self).classes@ == old(self).classes@
                    &&& final(self).params@ == old(self).params@
                    &&& final(self).rules@ == old(self).rules@
                },
                Err(e) => {
                    &&& *final(self) == *old(self)
                    &&& match e {
                        KnowledgeBaseError::BadCode(_) => spec_parse_signature(js_function@)
                            is None || spec_parse_signature(js_function@).unwrap().1 == 0,
                        KnowledgeBaseError::NameAlreadyExists => {
                            &&& spec_parse_signature(js_function@) is Some
                            &&& spec_parse_signature(js_function@).unwrap().1 >= 1
                            &&& old(self).has_relation(
                                spec_parse_signature(js_function@).unwrap().0,
                            )
                        },
                        _ => false,
                    }
                },
            },
    {
        let parsed = match process_function_string(js_function) {
            None => {
                return Err(
                    KnowledgeBaseError::BadCode(
                        String::from_str("failed to parse the name and arguments of the function"),
                    ),
                );
            },
            Some(p) => p,
        };
        let (name_s, args_count): (String, usize) = parsed;
        if args_count == 0 {
            return Err(
                KnowledgeBaseError::BadCode(String::from_str("the function takes zero arguments")),
            );
        }
        let n = self.relations.len();
        let mut i: usize = 0;
        while i < n
            invariant
                *self == *old(self),
                old(self).wf(),
                spec_parse_signature(js_function@) == Some(
                    (name_s@, spec_parse_signature(js_function@).unwrap().1),
                ),
                spec_parse_signature(js_function@).unwrap().1 >= 1,
                n == self.relations@.len(),
                i <= n,
                name_s@ == spec_parse_signature(js_function@).unwrap().0,
                forall|k: int| 0 <= k < i ==> (#[trigger] self.relations@[k].name@) != name_s@,
            decreases n - i,
        {
            if self.relations[i].name == name_s {
                return Err(KnowledgeBaseError::NameAlreadyExists);
            }
            i += 1;
        }
        let entry = RelationEntry {
            name: name_s,
            args_count,
            code: js_function.to_owned(),
            description: description.to_owned(),
        };
        self.relations.push(entry);
        proof {
            assert(final(self).relations@.subrange(0, old(self).relations@.len() as int) =~= old(self).relations@);
            assert forall|k: int| 0 <= k < final(self).classes@.len() implies final(self).class_wf(k) by {
                assert(old(self).class_wf(k));
            }
            assert forall|k: int| 0 <= k < final(self).params@.len() implies final(self).param_wf(k) by {
                assert(old(self).param_wf(k));
            }
            assert forall|k: int| 0 <= k < final(self).rules@.len() implies final(self).rule_wf(k) by {
                assert(old(self).rule_wf(k));
            }
        }
        Ok(Relation { idx: n })
    }

    /// Registers a relation: the evaluator validates the source, then the
    /// signature is parsed and the relation recorded as `register_relation`
    /// does.  Nothing changes on failure.
    pub fn new_relation<E: Evaluator>(
        &mut self,
        ev: &mut E,
        js_function: &str,
        description: &str,
    ) -> (r: Result<Relation, KnowledgeBaseError>)
        requires
            old(self).wf(),
        ensures
            final(self).wf(),
            match r {
                Ok(rel) => {
                    &&& match spec_parse_signature(js_function@) {
                        Some(p) => {
                            &&& p.1 >= 1
                            &&& !old(self).has_relation(p.0)
                            &&& final(self).relations@.last().name@ == p.0
                            &&& final(self).relations@.last().args_count == p.1
                        },
                        None => false,
                    }
                    &&& rel.idx == old(self).relations@.len()
                    &&& final(self).relations@.len() == old(self).relations@.len() + 1
                    &&& final(self).relations@.subrange(0, old(self).relations@.len() as int)
                        == old(self).relations@
                    &&& final(self).relations@.last().code@ == js_function@
                    &&& final(self).relations@.last().description@ == description@
                    &&& final(self).classes@ == old(self).classes@
                    &&& final(self).params@ == old(self).params@
                    &&& final(self).rules@ == old(self).rules@
                },
                Err(e) => {
                    &&& *final(self) == *old(self)
                    &&& match e {
                        KnowledgeBaseError::BadCode(_) => true,
                        KnowledgeBaseError::NameAlreadyExists => {
                            &&& spec_parse_signature(js_function@) is Some
                            &&& spec_parse_signature(js_function@).unwrap().1 >= 1
                            &&& old(self).has_relation(
                                spec_parse_signature(js_function@).unwrap().0,
                            )
                        },
                        _ => false,
                    }
                },
            },
            spec_parse_signature(js_function@) is None ==> r is Err,
            (spec_parse_signature(js_function@) is Some && spec_parse_signature(
                js_function@,
            ).unwrap().1 == 0) ==> r is Err,
    {
        match ev.compile(js_function) {
            Err(msg) => {
                return Err(KnowledgeBaseError::BadCode(msg));
            },
            Ok(()) => {},
        }
        self.register_relation(js_function, description)
    }

    /// Appends a rule binding `relation` to the ordered `args` and the target
    /// `out`.  Fails, appending nothing, exactly when the argument count does
    /// not match the relation's declared arity.
    pub fn new_rule(
        &mut self,
        name: &str,
        description: &str,
        relation: Relation,
        args: &[Parameter],
        out: Parameter,
    ) -> (r: Result<(), KnowledgeBaseError>)
        requires
            old(self).wf(),
            (relation.idx as int) < old(self).relations@.len(),
            (out.idx as int) < old(self).params@.len(),
            forall|k: int| 0 <= k < args@.len() ==> (#[trigger] args@[k].idx as int) < old(self).params@.len(),
        ensures
            final(self).wf(),
            match r {
                Ok(()) => {
                    &&& args@.len() == old(self).relations@[relation.idx as int].args_count
                    &&& final(self).rules@.len() == old(self).rules@.len() + 1
                    &&& final(self).rules@.subrange(0, old(self).rules@.len() as int) == old(self).rules@
                    &&& final(self).rules@.last().name@ == name@
                    &&& final(self).rules@.last().description@ == description@
                    &&& final(self).rules@.last().target == out
                    &&& final(self).rules@.last().args@ == args@
                    &&& final(self).rules@.last().relation == relation
                    &&& final(self).classes@ == old(self).classes@
                    &&& final(self).params@ == old(self).params@
                    &&& final(self).relations@ == old(self).relations@
                },
                Err(e) => {
                    &&& e is ArgCountError
                    &&& args@.len() != old(self).relations@[relation.idx as int].args_count
                    &&& *final(self) == *old(self)
                },
            },
    {
        if self.relations[relation.idx].args_count != args.len() {
            return Err(KnowledgeBaseError::ArgCountError);
        }
        let rule = Rule::new(name, description, out, args, relation);
        self.rules.push(rule);
        proof {
            assert(final(self).rules@.subrange(0, old(self).rules@.len() as int) =~= old(self).rules@);
            assert forall|k: int| 0 <= k < final(self).classes@.len() implies final(self).class_wf(k) by {
                assert(old(self).class_wf(k));
            }
            assert forall|k: int| 0 <= k < final(self).params@.len() implies final(self).param_wf(k) by {
                assert(old(self).param_wf(k));
            }
            assert forall|k: int| 0 <= k < final(self).rules@.len() implies final(self).rule_wf(k) by {
                if k < old(self).rules@.len() {
                    assert(old(self).rule_wf(k));
                } else {
                    let nr = final(self).rules@[k];
                    assert(nr.args@ == args@);
                    assert forall|m: int|
                        0 <= m < nr.args@.len() implies (#[trigger] nr.args@[m].idx as int)
                            < final(self).params@.len() by {
                        assert((args@[m].idx as int) < old(self).params@.len());
                    }
                }
            }
        }
        Ok(())
    }

    /// Answers a query: seeds a solve-time graph with the known values,
    /// hands the referenced relation sources to the evaluator, and resolves
    /// the requested parameters, returning fully-qualified name and value
    /// for each target that could be derived.  Unresolvable targets are
    /// simply absent from the result; the schema itself is never changed.
    pub fn solve<E: Evaluator>(
        &self,
        ev: &mut E,
        known_values: &[(Parameter, serde_json::Value)],
        values_to_find: &[Parameter],
    ) -> (r: Vec<(String, serde_json::Value)>)
        requires
            self.wf(),
            forall|k: int|
                0 <= k < known_values@.len() ==> ((#[trigger] known_values@[k]).0.idx as int)
                    < self.params@.len(),
            forall|t: int|
                0 <= t < values_to_find@.len() ==> ((#[trigger] values_to_find@[t]).idx as int)
                    < self.params@.len(),
        ensures
            r@.len() <= values_to_find@.len(),
            forall|m: int|
                0 <= m < r@.len() ==> exists|t: int|
                    0 <= t < values_to_find@.len() && (#[trigger] r@[m]).0@ == self.params@[values_to_find@[t].idx as int].full_name@,
            forall|m1: int, m2: int|
                0 <= m1 < r@.len() && 0 <= m2 < r@.len() && m1 != m2 ==> (#[trigger] r@[m1]).0@
                    != (#[trigger] r@[m2]).0@,
            forall|t: int|
                0 <= t < values_to_find@.len() ==> (match last_known(
                    *self,
                    known_values@,
                    self.params@[(#[trigger] values_to_find@[t]).idx as int].full_name@,
                ) {
                    Some(v) => exists|m: int|
                        0 <= m < r@.len() && (#[trigger] r@[m]).0@ == self.params@[values_to_find@[t].idx as int].full_name@
                            && r@[m].1 == v,
                    None => true,
                }),
            forall|t: int|
                0 <= t < values_to_find@.len() ==> (match self.params@[(
                #[trigger] values_to_find@[t]).idx as int].default {
                    Some(d) => (last_known(
                        *self,
                        known_values@,
                        self.params@[values_to_find@[t].idx as int].full_name@,
                    ) is None && rules_targeting(
                        *self,
                        self.rules@,
                        self.params@[values_to_find@[t].idx as int].full_name@,
                    ).len() == 0 && (forall|p: int|
                        0 <= p < self.params@.len() && (#[trigger] self.params@[p].full_name@)
                            == self.params@[values_to_find@[t].idx as int].full_name@
                            ==> self.params@[p].default == Some(d))) ==> exists|m: int|
                        0 <= m < r@.len() && (#[trigger] r@[m]).0@ == self.params@[values_to_find@[t].idx as int].full_name@
                            && r@[m].1 == d,
                    None => true,
                }),
    {
        let mut g = Graph::new(self, known_values, values_to_find);
        let ghost g0 = g;
        let n_s = g.sources.len();
        let mut s: usize = 0;
        while s < n_s
            invariant
                n_s == g.sources@.len(),
                s <= n_s,
            decreases n_s - s,
        {
            let _ = ev.compile(g.sources[s].as_str());
            s += 1;
        }
        let out = g.go(ev);
        proof {
            lemma_solve_facts(*self, known_values@, values_to_find@, g0, g, out@);
        }
        out
    }
}

impl KBClass {
    /// The cached fully-qualified name of this class.
    pub fn get_full_name(&self, kb: &KnowledgeBase) -> (r: String)
        requires
            (self.idx as int) < kb.classes@.len(),
        ensures
            r@ == kb.classes@[self.idx as int].full_name@,
    {
        kb.classes[self.idx].full_name.clone()
    }

    /// Registers a class under this one.  Fails, changing nothing, exactly
    /// when a child class of this name exists here.
    pub fn new_class(&self, kb: &mut KnowledgeBase, name: &str, description: &str) -> (r: Result<
        KBClass,
        KnowledgeBaseError,
    >)
        requires
            old(kb).wf(),
            (self.idx as int) < old(kb).classes@.len(),
        ensures
            final(kb).wf(),
            match r {
                Ok(c) => {
                    &&& !old(kb).has_child_class(self.idx as int, name@)
                    &&& c.idx == old(kb).classes@.len()
                    &&& final(kb).classes@.len() == old(kb).classes@.len() + 1
                    &&& final(kb).classes@.subrange(0, old(kb).classes@.len() as int) == old(kb).classes@
                    &&& final(kb).classes@.last().name@ == name@
                    &&& final(kb).classes@.last().description@ == description@
                    &&& final(kb).classes@.last().parent == Some(self.idx)
                    &&& final(kb).classes@.last().full_name@ == old(kb).classes@[self.idx as int].full_name@
                        + sep() + name@
                    &&& final(kb).params@ == old(kb).params@
                    &&& final(kb).relations@ == old(kb).relations@
                    &&& final(kb).rules@ == old(kb).rules@
                },
                Err(e) => {
                    &&& e is NameAlreadyExists
                    &&& old(kb).has_child_class(self.idx as int, name@)
                    &&& *final(kb) == *old(kb)
                },
            },
    {
        let name_s: String = name.to_owned();
        let n = kb.classes.len();
        let mut i: usize = 0;
        while i < n
            invariant
                *kb == *old(kb),
                old(kb).wf(),
                (self.idx as int) < kb.classes@.len(),
                n == kb.classes@.len(),
                i <= n,
                name_s@ == name@,
                forall|k: int|
                    0 <= k < i ==> !((#[trigger] kb.classes@[k].parent) == Some(self.idx)
                        && kb.classes@[k].name@ == name@),
            decreases n - i,
        {
            let same_parent = match kb.classes[i].parent {
                Some(p) => p == self.idx,
                None => false,
            };
            if same_parent && kb.classes[i].name == name_s {
                return Err(KnowledgeBaseError::NameAlreadyExists);
            }
            i += 1;
        }
        let mut full: String = kb.classes[self.idx].full_name.clone();
        full.append("/");
        full.append(name);
        let entry = ClassEntry { name: name_s, description: description.to_owned(), parent: Some(self.idx), full_name: full };
        kb.classes.push(entry);
        proof {
            assert(final(kb).classes@.subrange(0, old(kb).classes@.len() as int) =~= old(kb).classes@);
            assert forall|k: int| 0 <= k < final(kb).classes@.len() implies final(kb).class_wf(
                k,
            ) by {
                if k < old(kb).classes@.len() {
                    assert(old(kb).class_wf(k));
                }
            }
            assert forall|k: int| 0 <= k < final(kb).params@.len() implies final(kb).param_wf(
                k,
            ) by {
                assert(old(kb).param_wf(k));
            }
            assert forall|k: int| 0 <= k < final(kb).rules@.len() implies final(kb).rule_wf(
                k,
            ) by {
                assert(old(kb).rule_wf(k));
            }
        }
        Ok(KBClass { idx: n })
    }

    /// Registers a parameter under this class.  Fails, changing nothing,
    /// exactly when a parameter of this name exists here.
    pub fn new_parameter(
        &self,
        kb: &mut KnowledgeBase,
        name: &str,
        description: &str,
        default: Option<serde_json::Value>,
    ) -> (r: Result<Parameter, KnowledgeBaseError>)
        requires
            old(kb).wf(),
            (self.idx as int) < old(kb).classes@.len(),
        ensures
            final(kb).wf(),
            match r {
                Ok(p) => {
                    &&& !old(kb).has_param(self.idx as int, name@)
                    &&& p.idx == old(kb).params@.len()
                    &&& final(kb).params@.len() == old(kb).params@.len() + 1
                    &&& final(kb).params@.subrange(0, old(kb).params@.len() as int) == old(kb).params@
                    &&& final(kb).params@.last().name@ == name@
                    &&& final(kb).params@.last().description@ == description@
                    &&& final(kb).params@.last().owner == self.idx
                    &&& final(kb).params@.last().full_name@ == old(kb).classes@[self.idx as int].full_name@
                        + sep() + name@
                    &&& final(kb).params@.last().default == default
                    &&& final(kb).classes@ == old(kb).classes@
                    &&& final(kb).relations@ == old(kb).relations@
                    &&& final(kb).rules@ == old(kb).rules@
                },
                Err(e) => {
                    &&& e is NameAlreadyExists
                    &&& old(kb).has_param(self.idx as int, name@)
                    &&& *final(kb) == *old(kb)
                },
            },
    {
        let name_s: String = name.to_owned();
        let n = kb.params.len();
        let mut i: usize = 0;
        while i < n
            invariant
                *kb == *old(kb),
                old(kb).wf(),
                (self.idx as int) < kb.classes@.len(),
                n == kb.params@.len(),
                i <= n,
                name_s@ == name@,
                forall|k: int|
                    0 <= k < i ==> !((#[trigger] kb.params@[k].owner) == self.idx
                        && kb.params@[k].name@ == name@),
            decreases n - i,
        {
            if kb.params[i].owner == self.idx && kb.params[i].name == name_s {
                return Err(KnowledgeBaseError::NameAlreadyExists);
            }
            i += 1;
        }
        let mut full: String = kb.classes[self.idx].full_name.clone();
        full.append("/");
        full.append(name);
        let entry = ParamEntry {
            name: name_s,
            description: description.to_owned(),
            owner: self.idx,
            full_name: full,
            default,
        };
        kb.params.push(entry);
        proof {
            assert(final(kb).params@.subrange(0, old(kb).params@.len() as int) =~= old(kb).params@);
            assert forall|k: int| 0 <= k < final(kb).classes@.len() implies final(kb).class_wf(
                k,
            ) by {
                assert(old(kb).class_wf(k));
            }
            assert forall|k: int| 0 <= k < final(kb).params@.len() implies final(kb).param_wf(
                k,
            ) by {
                if k < old(kb).params@.len() {
                    assert(old(kb).param_wf(k));
                }
            }
            assert forall|k: int| 0 <= k < final(kb).rules@.len() implies final(kb).rule_wf(
                k,
            ) by {
                assert(old(kb).rule_wf(k));
            }
        }
        Ok(Parameter { idx: n })
    }
}

impl Parameter {
    /// The cached fully-qualified name of this parameter.
    pub fn get_full_name(&self, kb: &KnowledgeBase) -> (r: String)
        requires
            (self.idx as int) < kb.params@.len(),
        ensures
            r@ == kb.params@[self.idx as int].full_name@,
    {
        kb.params[self.idx].full_name.clone()
    }
}

} // verus!
