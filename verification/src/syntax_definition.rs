//! The pattern model of a grammar: contexts, match patterns, context
//! references, and the unlinked `SyntaxDefinition` produced by a loader.
//!
//! Every executable type has a mathematical view (`...V`) used by contracts;
//! views carry strings as `Seq<char>` and context handles as `int`.

use vstd::prelude::*;

use crate::scope::Scope;

verus! {

/// An opaque, stable handle into the flat context table of a built set.
#[derive(Debug)]
pub struct ContextId {
    index: usize,
}

impl View for ContextId {
    type V = int;

    closed spec fn view(&self) -> int {
        self.index as int
    }
}

impl Clone for ContextId {
    fn clone(&self) -> (res: ContextId)
        ensures
            res@ == self@,
    {
        ContextId { index: self.index }
    }
}

impl ContextId {
    pub fn new(index: usize) -> (res: ContextId)
        ensures
            res@ == index,
    {
        ContextId { index }
    }

    pub fn index(&self) -> (res: usize)
        ensures
            res == self@,
    {
        self.index
    }

    /// Handles are equal exactly when they index the same slot.
    pub fn eq_id(&self, other: &ContextId) -> (r: bool)
        ensures
            r == (self@ == other@),
    {
        self.index == other.index
    }
}

/// View of an `Option<String>` as an optional character sequence.
pub open spec fn opt_str_view(o: Option<String>) -> Option<Seq<char>> {
    match o {
        Option::Some(s) => Option::Some(s@),
        Option::None => Option::None,
    }
}

/// View of an `Option<ContextId>` as an optional index.
pub open spec fn opt_id_view(o: Option<ContextId>) -> Option<int> {
    match o {
        Option::Some(id) => Option::Some(id@),
        Option::None => Option::None,
    }
}

/// A reference to a context, before or after linking.
#[derive(Debug)]
pub enum ContextReference {
    /// A context of the same syntax, by name.
    Named(String),
    /// An anonymous inline context that the loader named synthetically.
    Inline(String),
    /// A context of the syntax with the given default scope.
    ByScope { scope: Scope, sub_context: Option<String> },
    /// A context of the syntax with the given display name.
    File { name: String, sub_context: Option<String> },
    /// A resolved reference into the flat context table.
    Direct(ContextId),
}

#[verifier::ext_equal]
pub ghost enum CtxRefV {
    Named { name: Seq<char> },
    Inline { name: Seq<char> },
    ByScope { scope: Seq<char>, sub_context: Option<Seq<char>> },
    File { name: Seq<char>, sub_context: Option<Seq<char>> },
    Direct { id: int },
}

impl View for ContextReference {
    type V = CtxRefV;

    open spec fn view(&self) -> CtxRefV {
        match self {
            ContextReference::Named(s) => CtxRefV::Named { name: s@ },
            ContextReference::Inline(s) => CtxRefV::Inline { name: s@ },
            ContextReference::ByScope { scope, sub_context } => CtxRefV::ByScope {
                scope: scope@,
                sub_context: opt_str_view(*sub_context),
            },
            ContextReference::File { name, sub_context } => CtxRefV::File {
                name: name@,
                sub_context: opt_str_view(*sub_context),
            },
            ContextReference::Direct(id) => CtxRefV::Direct { id: id@ },
        }
    }
}

pub fn clone_opt_string(o: &Option<String>) -> (res: Option<String>)
    ensures
        opt_str_view(res) == opt_str_view(*o),
{
    match o {
        Option::Some(s) => Option::Some(s.clone()),
        Option::None => Option::None,
    }
}

impl Clone for ContextReference {
    fn clone(&self) -> (res: ContextReference)
        ensures
            res@ == self@,
    {
        match self {
            ContextReference::Named(s) => ContextReference::Named(s.clone()),
            ContextReference::Inline(s) => ContextReference::Inline(s.clone()),
            ContextReference::ByScope { scope, sub_context } => ContextReference::ByScope {
                scope: scope.clone(),
                sub_context: clone_opt_string(sub_context),
            },
            ContextReference::File { name, sub_context } => ContextReference::File {
                name: name.clone(),
                sub_context: clone_opt_string(sub_context),
            },
            ContextReference::Direct(id) => ContextReference::Direct(id.clone()),
        }
    }
}

/// View of a sequence of viewable values.
pub open spec fn seq_view<T: View>(s: Seq<T>) -> Seq<T::V> {
    s.map_values(|x: T| x@)
}

/// What a successful match does to the context stack.
#[derive(Debug)]
pub enum MatchOperation {
    /// Push the referenced contexts.
    Push(Vec<ContextReference>),
    /// Replace the top of the stack with the referenced contexts.
    SetContexts(Vec<ContextReference>),
    /// Pop the top of the stack.
    Pop,
    /// Leave the stack unchanged.
    NoOp,
}

#[verifier::ext_equal]
pub ghost enum MatchOpV {
    Push { targets: Seq<CtxRefV> },
    SetContexts { targets: Seq<CtxRefV> },
    Pop,
    NoOp,
}

impl View for MatchOperation {
    type V = MatchOpV;

    open spec fn view(&self) -> MatchOpV {
        match self {
            MatchOperation::Push(refs) => MatchOpV::Push { targets: seq_view(refs@) },
            MatchOperation::SetContexts(refs) => MatchOpV::SetContexts { targets: seq_view(refs@) },
            MatchOperation::Pop => MatchOpV::Pop,
            MatchOperation::NoOp => MatchOpV::NoOp,
        }
    }
}

pub fn clone_refs(v: &Vec<ContextReference>) -> (res: Vec<ContextReference>)
    ensures
        seq_view(res@) == seq_view(v@),
{
    let mut out: Vec<ContextReference> = Vec::new();
    let mut i: usize = 0;
    while i < v.len()
        invariant
            i <= v.len(),
            out@.len() == i,
            forall|j: int| 0 <= j < i ==> out@[j]@ == v@[j]@,
        decreases v.len() - i,
    {
        out.push(v[i].clone());
        i = i + 1;
    }
    proof {
        assert(seq_view(out@) =~= seq_view(v@));
    }
    out
}

impl Clone for MatchOperation {
    fn clone(&self) -> (res: MatchOperation)
        ensures
            res@ == self@,
    {
        match self {
            MatchOperation::Push(refs) => MatchOperation::Push(clone_refs(refs)),
            MatchOperation::SetContexts(refs) => MatchOperation::SetContexts(clone_refs(refs)),
            MatchOperation::Pop => MatchOperation::Pop,
            MatchOperation::NoOp => MatchOperation::NoOp,
        }
    }
}

/// A capture group mapped to the scope it should be labelled with.
pub open spec fn captures_view(s: Seq<(usize, Scope)>) -> Seq<(int, Seq<char>)> {
    s.map_values(|p: (usize, Scope)| (p.0 as int, p.1@))
}

/// A match pattern: a regex source, capture scopes, a stack operation and an
/// optional prototype override.
#[derive(Debug)]
pub struct MatchPattern {
    pub regex_str: String,
    pub captures: Vec<(usize, Scope)>,
    pub operation: MatchOperation,
    pub with_prototype: Option<ContextReference>,
}

#[verifier::ext_equal]
pub ghost struct MatchPatV {
    pub regex: Seq<char>,
    pub captures: Seq<(int, Seq<char>)>,
    pub operation: MatchOpV,
    pub with_prototype: Option<CtxRefV>,
}

/// View of an `Option<ContextReference>`.
pub open spec fn opt_ref_view(o: Option<ContextReference>) -> Option<CtxRefV> {
    match o {
        Option::Some(r) => Option::Some(r@),
        Option::None => Option::None,
    }
}

impl View for MatchPattern {
    type V = MatchPatV;

    open spec fn view(&self) -> MatchPatV {
        MatchPatV {
            regex: self.regex_str@,
            captures: captures_view(self.captures@),
            operation: self.operation@,
            with_prototype: opt_ref_view(self.with_prototype),
        }
    }
}

fn clone_captures(v: &Vec<(usize, Scope)>) -> (res: Vec<(usize, Scope)>)
    ensures
        captures_view(res@) == captures_view(v@),
{
    let mut out: Vec<(usize, Scope)> = Vec::new();
    let mut i: usize = 0;
    while i < v.len()
        invariant
            i <= v.len(),
            out@.len() == i,
            forall|j: int| 0 <= j < i ==> out@[j].0 == v@[j].0 && out@[j].1@ == v@[j].1@,
        decreases v.len() - i,
    {
        let num = v[i].0;
        let sc = v[i].1.clone();
        out.push((num, sc));
        i = i + 1;
    }
    proof {
        assert(captures_view(out@) =~= captures_view(v@));
    }
    out
}

impl Clone for MatchPattern {
    fn clone(&self) -> (res: MatchPattern)
        ensures
            res@ == self@,
    {
        let with_prototype = match &self.with_prototype {
            Option::Some(r) => Option::Some(r.clone()),
            Option::None => Option::None,
        };
        MatchPattern {
            regex_str: self.regex_str.clone(),
            captures: clone_captures(&self.captures),
            operation: self.operation.clone(),
            with_prototype,
        }
    }
}

/// One element of a context: either a match pattern or an inclusion of
/// another context.
#[derive(Debug)]
pub enum Pattern {
    Match(MatchPattern),
    Include(ContextReference),
}

#[verifier::ext_equal]
pub ghost enum PatternV {
    Match { p: MatchPatV },
    Include { r: CtxRefV },
}

impl View for Pattern {
    type V = PatternV;

    open spec fn view(&self) -> PatternV {
        match self {
            Pattern::Match(p) => PatternV::Match { p: p@ },
            Pattern::Include(r) => PatternV::Include { r: r@ },
        }
    }
}

impl Clone for Pattern {
    fn clone(&self) -> (res: Pattern)
        ensures
            res@ == self@,
    {
        match self {
            Pattern::Match(p) => Pattern::Match(p.clone()),
            Pattern::Include(r) => Pattern::Include(r.clone()),
        }
    }
}

/// View of a sequence of scopes.
pub open spec fn scopes_view(s: Seq<Scope>) -> Seq<Seq<char>> {
    s.map_values(|sc: Scope| sc@)
}

pub fn clone_scopes(v: &Vec<Scope>) -> (res: Vec<Scope>)
    ensures
        scopes_view(res@) == scopes_view(v@),
{
    let mut out: Vec<Scope> = Vec::new();
    let mut i: usize = 0;
    while i < v.len()
        invariant
            i <= v.len(),
            out@.len() == i,
            forall|j: int| 0 <= j < i ==> out@[j]@ == v@[j]@,
        decreases v.len() - i,
    {
        out.push(v[i].clone());
        i = i + 1;
    }
    proof {
        assert(scopes_view(out@) =~= scopes_view(v@));
    }
    out
}

/// One state of a grammar: an ordered pattern list plus meta flags.
/// `prototype` is filled in during linking.
#[derive(Debug)]
pub struct Context {
    pub meta_scope: Vec<Scope>,
    pub meta_include_prototype: bool,
    pub prototype: Option<ContextId>,
    pub patterns: Vec<Pattern>,
}

#[verifier::ext_equal]
pub ghost struct ContextV {
    pub meta_scope: Seq<Seq<char>>,
    pub meta_include_prototype: bool,
    pub prototype: Option<int>,
    pub patterns: Seq<PatternV>,
}

impl View for Context {
    type V = ContextV;

    open spec fn view(&self) -> ContextV {
        ContextV {
            meta_scope: scopes_view(self.meta_scope@),
            meta_include_prototype: self.meta_include_prototype,
            prototype: opt_id_view(self.prototype),
            patterns: seq_view(self.patterns@),
        }
    }
}

pub fn clone_patterns(v: &Vec<Pattern>) -> (res: Vec<Pattern>)
    ensures
        seq_view(res@) == seq_view(v@),
{
    let mut out: Vec<Pattern> = Vec::new();
    let mut i: usize = 0;
    while i < v.len()
        invariant
            i <= v.len(),
            out@.len() == i,
            forall|j: int| 0 <= j < i ==> out@[j]@ == v@[j]@,
        decreases v.len() - i,
    {
        out.push(v[i].clone());
        i = i + 1;
    }
    proof {
        assert(seq_view(out@) =~= seq_view(v@));
    }
    out
}

impl Clone for Context {
    fn clone(&self) -> (res: Context)
        ensures
            res@ == self@,
    {
        let prototype = match &self.prototype {
            Option::Some(id) => Option::Some(id.clone()),
            Option::None => Option::None,
        };
        Context {
            meta_scope: clone_scopes(&self.meta_scope),
            meta_include_prototype: self.meta_include_prototype,
            prototype,
            patterns: clone_patterns(&self.patterns),
        }
    }
}

impl Context {
    /// An empty context with default meta flags: `meta_include_prototype`
    /// defaults to true and no prototype is attached.
    pub fn new() -> (res: Context)
        ensures
            res@ == (ContextV {
                meta_scope: Seq::<Seq<char>>::empty(),
                meta_include_prototype: true,
                prototype: Option::<int>::None,
                patterns: Seq::<PatternV>::empty(),
            }),
    {
        let res = Context {
            meta_scope: Vec::new(),
            meta_include_prototype: true,
            prototype: Option::None,
            patterns: Vec::new(),
        };
        proof {
            assert(scopes_view(res.meta_scope@) =~= Seq::<Seq<char>>::empty());
            assert(seq_view(res.patterns@) =~= Seq::<PatternV>::empty());
        }
        res
    }
}

/// View of a named-context list.
pub open spec fn named_ctxs_view(s: Seq<(String, Context)>) -> Seq<(Seq<char>, ContextV)> {
    s.map_values(|p: (String, Context)| (p.0@, p.1@))
}

/// View of a variable list.
pub open spec fn vars_view(s: Seq<(String, String)>) -> Seq<(Seq<char>, Seq<char>)> {
    s.map_values(|p: (String, String)| (p.0@, p.1@))
}

/// View of a string list.
pub open spec fn strs_view(s: Seq<String>) -> Seq<Seq<char>> {
    s.map_values(|x: String| x@)
}

/// A parsed but unlinked grammar: named contexts, variables and metadata.
/// Context names are unique within a definition.
#[derive(Debug)]
pub struct SyntaxDefinition {
    pub name: String,
    pub file_extensions: Vec<String>,
    pub scope: Scope,
    pub first_line_match: Option<String>,
    pub hidden: bool,
    pub variables: Vec<(String, String)>,
    pub contexts: Vec<(String, Context)>,
}

#[verifier::ext_equal]
pub ghost struct SynDefV {
    pub name: Seq<char>,
    pub file_extensions: Seq<Seq<char>>,
    pub scope: Seq<char>,
    pub first_line_match: Option<Seq<char>>,
    pub hidden: bool,
    pub variables: Seq<(Seq<char>, Seq<char>)>,
    pub contexts: Seq<(Seq<char>, ContextV)>,
}

impl View for SyntaxDefinition {
    type V = SynDefV;

    open spec fn view(&self) -> SynDefV {
        SynDefV {
            name: self.name@,
            file_extensions: strs_view(self.file_extensions@),
            scope: self.scope@,
            first_line_match: opt_str_view(self.first_line_match),
            hidden: self.hidden,
            variables: vars_view(self.variables@),
            contexts: named_ctxs_view(self.contexts@),
        }
    }
}

pub fn clone_strings(v: &Vec<String>) -> (res: Vec<String>)
    ensures
        strs_view(res@) == strs_view(v@),
{
    let mut out: Vec<String> = Vec::new();
    let mut i: usize = 0;
    while i < v.len()
        invariant
            i <= v.len(),
            out@.len() == i,
            forall|j: int| 0 <= j < i ==> out@[j]@ == v@[j]@,
        decreases v.len() - i,
    {
        out.push(v[i].clone());
        i = i + 1;
    }
    proof {
        assert(strs_view(out@) =~= strs_view(v@));
    }
    out
}

pub fn clone_vars(v: &Vec<(String, String)>) -> (res: Vec<(String, String)>)
    ensures
        vars_view(res@) == vars_view(v@),
{
    let mut out: Vec<(String, String)> = Vec::new();
    let mut i: usize = 0;
    while i < v.len()
        invariant
            i <= v.len(),
            out@.len() == i,
            forall|j: int| 0 <= j < i ==> out@[j].0@ == v@[j].0@ && out@[j].1@ == v@[j].1@,
        decreases v.len() - i,
    {
        let k = v[i].0.clone();
        let val = v[i].1.clone();
        out.push((k, val));
        i = i + 1;
    }
    proof {
        assert(vars_view(out@) =~= vars_view(v@));
    }
    out
}

pub fn clone_named_ctxs(v: &Vec<(String, Context)>) -> (res: Vec<(String, Context)>)
    ensures
        named_ctxs_view(res@) == named_ctxs_view(v@),
{
    let mut out: Vec<(String, Context)> = Vec::new();
    let mut i: usize = 0;
    while i < v.len()
        invariant
            i <= v.len(),
            out@.len() == i,
            forall|j: int| 0 <= j < i ==> out@[j].0@ == v@[j].0@ && out@[j].1@ == v@[j].1@,
        decreases v.len() - i,
    {
        let k = v[i].0.clone();
        let c = v[i].1.clone();
        out.push((k, c));
        i = i + 1;
    }
    proof {
        assert(named_ctxs_view(out@) =~= named_ctxs_view(v@));
    }
    out
}

impl Clone for SyntaxDefinition {
    fn clone(&self) -> (res: SyntaxDefinition)
        ensures
            res@ == self@,
    {
        SyntaxDefinition {
            name: self.name.clone(),
            file_extensions: clone_strings(&self.file_extensions),
            scope: self.scope.clone(),
            first_line_match: clone_opt_string(&self.first_line_match),
            hidden: self.hidden,
            variables: clone_vars(&self.variables),
            contexts: clone_named_ctxs(&self.contexts),
        }
    }
}

} // verus!
