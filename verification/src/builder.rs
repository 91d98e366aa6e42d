//! A fluent convenience layer for constructing knowledge bases.
//!
//! The builder keeps a position in the class tree: `new_class` descends into
//! a freshly created class, `leave_class` moves back up, `go_base` returns to
//! the root.  Parameters are recorded under their dotted path, and rules
//! refer to relations by name and to parameters by that dotted path.  The
//! first failing step is remembered and reported by `build`; later steps do
//! nothing.

use vstd::prelude::*;
use vstd::string::*;

use crate::model::KBClass;
use crate::model::KnowledgeBase;
use crate::model::Parameter;
use crate::model::Relation;
use crate::parse::spec_parse_signature;
use crate::KnowledgeBaseError;

verus! {

/// The names of the first `upto` classes on the position path, each
/// followed by a dot: the prefix of every dotted path recorded below them.
pub open spec fn dotted_prefix(names: Seq<String>, upto: int) -> Seq<char>
    decreases upto,
{
    if upto <= 0 {
        Seq::empty()
    } else {
        dotted_prefix(names, upto - 1) + names[upto - 1]@ + "."@
    }
}

/// Builds a knowledge base step by step; see the module description.
pub struct KnowledgeBaseBuilder {
    pub kb: KnowledgeBase,
    /// The classes on the path from a root to the current position.
    pub path: Vec<KBClass>,
    /// The names of those classes, for dotted paths.
    pub names: Vec<String>,
    /// The dotted path of each parameter, aligned with the parameter arena.
    pub param_paths: Vec<String>,
    /// The first error met, if any.
    pub error: Option<KnowledgeBaseError>,
}

impl KnowledgeBaseBuilder {
    /// The inner knowledge base is well-formed, the position path points
    /// into its class arena, and every parameter has its dotted path.
    pub open spec fn inv(self) -> bool {
        &&& self.kb.wf()
        &&& forall|i: int|
            0 <= i < self.path@.len() ==> ((#[trigger] self.path@[i]).idx as int)
                < self.kb.classes@.len()
        &&& self.names@.len() == self.path@.len()
        &&& self.param_paths@.len() == self.kb.params@.len()
    }

    /// The recorded schema, position and paths are all those of `other`.
    pub open spec fn same_as(self, other: KnowledgeBaseBuilder) -> bool {
        &&& self.kb.classes@ == other.kb.classes@
        &&& self.kb.params@ == other.kb.params@
        &&& self.kb.relations@ == other.kb.relations@
        &&& self.kb.rules@ == other.kb.rules@
        &&& self.path@ == other.path@
        &&& self.names@ == other.names@
        &&& self.param_paths@ == other.param_paths@
    }

    pub fn new() -> (r: KnowledgeBaseBuilder)
        ensures
            r.inv(),
            r.error is None,
            r.kb.classes@.len() == 0,
            r.kb.params@.len() == 0,
            r.kb.relations@.len() == 0,
            r.kb.rules@.len() == 0,
            r.path@.len() == 0,
            r.names@.len() == 0,
            r.param_paths@.len() == 0,
    {
        KnowledgeBaseBuilder {
            kb: KnowledgeBase::new(),
            path: Vec::new(),
            names: Vec::new(),
            param_paths: Vec::new(),
            error: None,
        }
    }

    /// The dotted path of the current position, extended by `name`.
    fn dotted(&self, name: &str) -> (out: String)
        ensures
            out@ == dotted_prefix(self.names@, self.names@.len() as int) + name@,
    {
        let mut out = String::new();
        let n = self.names.len();
        let mut i: usize = 0;
        while i < n
            invariant
                n == self.names@.len(),
                i <= n,
                out@ == dotted_prefix(self.names@, i as int),
            decreases n - i,
        {
            out.append(self.names[i].as_str());
            out.append(".");
            i += 1;
        }
        out.append(name);
        out
    }

    /// Creates a class at the current position — a root class at the base,
    /// a child of the current class otherwise — and descends into it.
    pub fn new_class(self, name: &str, description: &str) -> (r: KnowledgeBaseBuilder)
        requires
            self.inv(),
        ensures
            r.inv(),
            self.error is Some ==> r == self,
            (self.error is None && r.error is Some) ==> r.same_as(self),
            r.error is None ==> {
                &&& self.error is None
                &&& r.kb.classes@.len() == self.kb.classes@.len() + 1
                &&& r.kb.classes@.subrange(0, self.kb.classes@.len() as int) == self.kb.classes@
                &&& r.kb.classes@.last().name@ == name@
                &&& r.kb.classes@.last().description@ == description@
                &&& r.kb.classes@.last().parent == (if self.path@.len() == 0 {
                    Option::<usize>::None
                } else {
                    Some(self.path@.last().idx)
                })
                &&& r.kb.params@ == self.kb.params@
                &&& r.kb.relations@ == self.kb.relations@
                &&& r.kb.rules@ == self.kb.rules@
                &&& r.path@.len() == self.path@.len() + 1
                &&& r.path@.drop_last() == self.path@
                &&& (r.path@.last().idx as int) == self.kb.classes@.len()
                &&& r.names@.len() == self.names@.len() + 1
                &&& r.names@.drop_last() == self.names@
                &&& r.names@.last()@ == name@
                &&& r.param_paths@ == self.param_paths@
            },
    {
        let mut b = self;
        if b.error.is_some() {
            return b;
        }
        let made = if b.path.len() == 0 {
            b.kb.new_class(name, description)
        } else {
            let here = b.path[b.path.len() - 1];
            here.new_class(&mut b.kb, name, description)
        };
        match made {
            Ok(c) => {
                b.path.push(c);
                b.names.push(name.to_owned());
                proof {
                    assert(b.path@.drop_last() =~= self.path@);
                    assert(b.names@.drop_last() =~= self.names@);
                }
            },
            Err(e) => {
                b.error = Some(e);
            },
        }
        b
    }

    /// Creates a parameter under the current class, recording its dotted
    /// path; fails when the position is at the base, where parameters
    /// cannot live.
    pub fn add_parameter(
        self,
        name: &str,
        description: &str,
        default: Option<serde_json::Value>,
    ) -> (r: KnowledgeBaseBuilder)
        requires
            self.inv(),
        ensures
            r.inv(),
            self.error is Some ==> r == self,
            (self.error is None && r.error is Some) ==> r.same_as(self),
            r.error is None ==> {
                &&& self.error is None
                &&& self.path@.len() > 0
                &&& r.kb.params@.len() == self.kb.params@.len() + 1
                &&& r.kb.params@.subrange(0, self.kb.params@.len() as int) == self.kb.params@
                &&& r.kb.params@.last().name@ == name@
                &&& r.kb.params@.last().description@ == description@
                &&& r.kb.params@.last().owner == self.path@.last().idx
                &&& r.kb.params@.last().default == default
                &&& r.kb.classes@ == self.kb.classes@
                &&& r.kb.relations@ == self.kb.relations@
                &&& r.kb.rules@ == self.kb.rules@
                &&& r.path@ == self.path@
                &&& r.names@ == self.names@
                &&& r.param_paths@.len() == self.param_paths@.len() + 1
                &&& r.param_paths@.drop_last() == self.param_paths@
                &&& r.param_paths@.last()@ == dotted_prefix(
                    self.names@,
                    self.names@.len() as int,
                ) + name@
            },
    {
        let mut b = self;
        if b.error.is_some() {
            return b;
        }
        if b.path.len() == 0 {
            b.error = Some(
                KnowledgeBaseError::BadCode(
                    String::from_str("a parameter needs a class to live in"),
                ),
            );
            return b;
        }
        let path = b.dotted(name);
        let here = b.path[b.path.len() - 1];
        match here.new_parameter(&mut b.kb, name, description, default) {
            Ok(_) => {
                b.param_paths.push(path);
                proof {
                    assert(b.param_paths@.drop_last() =~= self.param_paths@);
                }
            },
            Err(e) => {
                b.error = Some(e);
            },
        }
        b
    }

    /// Moves the position one class up, keeping the recorded schema; at the
    /// base it stays.  Leaving a class just entered restores the position.
    pub fn leave_class(self) -> (r: KnowledgeBaseBuilder)
        requires
            self.inv(),
        ensures
            r.inv(),
            self.error is Some ==> r == self,
            self.error is None ==> {
                &&& r.error is None
                &&& r.kb.classes@ == self.kb.classes@
                &&& r.kb.params@ == self.kb.params@
                &&& r.kb.relations@ == self.kb.relations@
                &&& r.kb.rules@ == self.kb.rules@
                &&& r.param_paths@ == self.param_paths@
            },
            (self.error is None && self.path@.len() > 0) ==> (r.path@ == self.path@.drop_last()
                && r.names@ == self.names@.drop_last()),
            (self.error is None && self.path@.len() == 0) ==> r == self,
    {
        let mut b = self;
        if b.error.is_some() {
            return b;
        }
        if b.path.len() > 0 {
            let _ = b.path.pop();
            let _ = b.names.pop();
            proof {
                assert(b.path@ =~= self.path@.drop_last());
                assert(b.names@ =~= self.names@.drop_last());
            }
        }
        b
    }

    /// Moves the position back to the base, whatever the nesting depth,
    /// keeping the recorded schema; doing so twice is the same as once.
    pub fn go_base(self) -> (r: KnowledgeBaseBuilder)
        requires
            self.inv(),
        ensures
            r.inv(),
            self.error is Some ==> r == self,
            self.error is None ==> {
                &&& r.error is None
                &&& r.kb.classes@ == self.kb.classes@
                &&& r.kb.params@ == self.kb.params@
                &&& r.kb.relations@ == self.kb.relations@
                &&& r.kb.rules@ == self.kb.rules@
                &&& r.param_paths@ == self.param_paths@
                &&& r.path@.len() == 0
                &&& r.names@.len() == 0
            },
    {
        let mut b = self;
        if b.error.is_some() {
            return b;
        }
        b.path.clear();
        b.names.clear();
        b
    }

    /// Registers a relation from its source text.  The builder validates the
    /// signature only; source compilation is the evaluator's business at
    /// solve time.
    pub fn new_relation(self, js_function: &str) -> (r: KnowledgeBaseBuilder)
        requires
            self.inv(),
        ensures
            r.inv(),
            self.error is Some ==> r == self,
            (self.error is None && r.error is Some) ==> r.same_as(self),
            r.error is None ==> {
                &&& self.error is None
                &&& match spec_parse_signature(js_function@) {
                    Some(p) => {
                        &&& p.1 >= 1
                        &&& r.kb.relations@.last().name@ == p.0
                        &&& r.kb.relations@.last().args_count == p.1
                    },
                    None => false,
                }
                &&& r.kb.relations@.len() == self.kb.relations@.len() + 1
                &&& r.kb.relations@.subrange(0, self.kb.relations@.len() as int)
                    == self.kb.relations@
                &&& r.kb.relations@.last().code@ == js_function@
                &&& r.kb.classes@ == self.kb.classes@
                &&& r.kb.params@ == self.kb.params@
                &&& r.kb.rules@ == self.kb.rules@
                &&& r.path@ == self.path@
                &&& r.names@ == self.names@
                &&& r.param_paths@ == self.param_paths@
            },
    {
        let mut b = self;
        if b.error.is_some() {
            return b;
        }
        match b.kb.register_relation(js_function, "") {
            Ok(_) => {},
            Err(e) => {
                b.error = Some(e);
            },
        }
        b
    }

    /// Looks a relation up by name.
    fn find_relation(&self, name: &str) -> (r: Option<Relation>)
        requires
            self.inv(),
        ensures
            match r {
                Some(rel) => {
                    &&& (rel.idx as int) < self.kb.relations@.len()
                    &&& self.kb.relations@[rel.idx as int].name@ == name@
                },
                None => !self.kb.has_relation(name@),
            },
    {
        let want: String = name.to_owned();
        let n = self.kb.relations.len();
        let mut i: usize = 0;
        while i < n
            invariant
                self.inv(),
                want@ == name@,
                n == self.kb.relations@.len(),
                i <= n,
                forall|k: int| 0 <= k < i ==> (#[trigger] self.kb.relations@[k].name@) != name@,
            decreases n - i,
        {
            if self.kb.relations[i].name == want {
                return Some(Relation { idx: i });
            }
            i += 1;
        }
        None
    }

    /// Looks a parameter up by its dotted path.
    fn find_parameter(&self, path: &str) -> (r: Option<Parameter>)
        requires
            self.inv(),
        ensures
            match r {
                Some(p) => {
                    &&& (p.idx as int) < self.kb.params@.len()
                    &&& self.param_paths@[p.idx as int]@ == path@
                },
                None => forall|k: int|
                    0 <= k < self.param_paths@.len() ==> (#[trigger] self.param_paths@[k])@
                        != path@,
            },
    {
        let want: String = path.to_owned();
        let n = self.param_paths.len();
        let mut i: usize = 0;
        while i < n
            invariant
                self.inv(),
                want@ == path@,
                n == self.param_paths@.len(),
                i <= n,
                forall|k: int| 0 <= k < i ==> (#[trigger] self.param_paths@[k])@ != path@,
            decreases n - i,
        {
            if self.param_paths[i] == want {
                return Some(Parameter { idx: i });
            }
            i += 1;
        }
        None
    }

    /// Binds the relation named `relation_name` to the parameters at the
    /// dotted paths `args` (order kept) and the one target named by `outs`,
    /// appending the rule to the recorded schema.
    pub fn new_rule(
        self,
        relation_name: &str,
        args: &[&str],
        outs: &[&str],
        name: &str,
        description: &str,
    ) -> (r: KnowledgeBaseBuilder)
        requires
            self.inv(),
        ensures
            r.inv(),
            self.error is Some ==> r == self,
            (self.error is None && r.error is Some) ==> r.same_as(self),
            r.error is None ==> {
                &&& self.error is None
                &&& outs@.len() == 1
                &&& r.kb.rules@.len() == self.kb.rules@.len() + 1
                &&& r.kb.rules@.subrange(0, self.kb.rules@.len() as int) == self.kb.rules@
                &&& r.kb.rules@.last().name@ == name@
                &&& r.kb.rules@.last().description@ == description@
                &&& (r.kb.rules@.last().relation.idx as int) < self.kb.relations@.len()
                &&& self.kb.relations@[r.kb.rules@.last().relation.idx as int].name@
                    == relation_name@
                &&& r.kb.rules@.last().args@.len() == args@.len()
                &&& forall|k: int|
                    0 <= k < args@.len() ==> ((#[trigger] r.kb.rules@.last().args@[k].idx as int)
                        < self.param_paths@.len() && self.param_paths@[r.kb.rules@.last().args@[k].idx as int]@
                        == args@[k]@)
                &&& (r.kb.rules@.last().target.idx as int) < self.param_paths@.len()
                &&& self.param_paths@[r.kb.rules@.last().target.idx as int]@ == outs@[0]@
                &&& r.kb.classes@ == self.kb.classes@
                &&& r.kb.params@ == self.kb.params@
                &&& r.kb.relations@ == self.kb.relations@
                &&& r.path@ == self.path@
                &&& r.names@ == self.names@
                &&& r.param_paths@ == self.param_paths@
            },
    {
        let mut b = self;
        if b.error.is_some() {
            return b;
        }
        let relation = match b.find_relation(relation_name) {
            Some(rel) => rel,
            None => {
                b.error = Some(
                    KnowledgeBaseError::BadCode(String::from_str("no relation of that name")),
                );
                return b;
            },
        };
        if outs.len() != 1 {
            b.error = Some(
                KnowledgeBaseError::BadCode(String::from_str("a rule derives exactly one target")),
            );
            return b;
        }
        let target = match b.find_parameter(outs[0]) {
            Some(p) => p,
            None => {
                b.error = Some(
                    KnowledgeBaseError::BadCode(String::from_str("no parameter of that path")),
                );
                return b;
            },
        };
        let n_args = args.len();
        let mut arg_params: Vec<Parameter> = Vec::new();
        let mut i: usize = 0;
        while i < n_args
            invariant
                b.inv(),
                b.same_as(self),
                b.error is None,
                self.error is None,
                (relation.idx as int) < b.kb.relations@.len(),
                b.kb.relations@[relation.idx as int].name@ == relation_name@,
                (target.idx as int) < b.kb.params@.len(),
                b.param_paths@[target.idx as int]@ == outs@[0]@,
                n_args == args@.len(),
                i <= n_args,
                arg_params@.len() == i,
                forall|k: int|
                    0 <= k < i ==> (((#[trigger] arg_params@[k]).idx as int)
                        < b.param_paths@.len() && b.param_paths@[arg_params@[k].idx as int]@
                        == args@[k]@),
            decreases n_args - i,
        {
            match b.find_parameter(args[i]) {
                Some(p) => {
                    arg_params.push(p);
                },
                None => {
                    b.error = Some(
                        KnowledgeBaseError::BadCode(String::from_str("no parameter of that path")),
                    );
                    return b;
                },
            }
            i += 1;
        }
        match b.kb.new_rule(name, description, relation, arg_params.as_slice(), target) {
            Ok(()) => {},
            Err(e) => {
                b.error = Some(e);
            },
        }
        b
    }

    /// Hands the recorded knowledge base out, or the first error met.
    pub fn build(self) -> (r: Result<KnowledgeBase, KnowledgeBaseError>)
        requires
            self.inv(),
        ensures
            match r {
                Ok(kb) => {
                    &&& kb.wf()
                    &&& self.error is None
                    &&& kb == self.kb
                },
                Err(e) => self.error == Some(e),
            },
    {
        match self.error {
            None => Ok(self.kb),
            Some(e) => Err(e),
        }
    }
}

impl KnowledgeBase {
    /// A fresh builder for assembling a knowledge base fluently.
    pub fn builder() -> (r: KnowledgeBaseBuilder)
        ensures
            r.inv(),
            r.error is None,
            r.kb.classes@.len() == 0,
            r.kb.params@.len() == 0,
            r.kb.relations@.len() == 0,
            r.kb.rules@.len() == 0,
            r.path@.len() == 0,
            r.names@.len() == 0,
    {
        KnowledgeBaseBuilder::new()
    }
}

} // verus!
