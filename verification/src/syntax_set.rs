//! A syntax set holds a collection of syntaxes and manages the crucial
//! operation of *linking*: rewriting name-based references between syntaxes
//! into direct, stable `ContextId` handles into one flat context table.

use vstd::prelude::*;

use crate::linker::{
    assign_ctxs, assign_refs, build_v, ctx_marks, first_by_name, first_by_scope, link_op,
    link_pat, map_lookup, reachable, resolve_ref, sort_named_ctxs,
};
use crate::regex::{regex_compiles, regex_matches, CompiledRegex};
use crate::scope::Scope;
use crate::strutil::{ascii_ieq, ends_with, lex_le, str_ends_with, str_eq_str, str_ieq, str_le};
use crate::syntax_definition::{
    clone_named_ctxs, clone_opt_string, clone_strings, clone_vars, named_ctxs_view, opt_id_view,
    opt_str_view, scopes_view, seq_view, strs_view, vars_view, Context, ContextId, ContextV,
    ContextReference, CtxRefV, MatchOperation, MatchPatV, MatchPattern, Pattern, PatternV,
    SynDefV, SyntaxDefinition,
};

verus! {

// ---------------------------------------------------------------------------
// views
// ---------------------------------------------------------------------------
/// View of a per-syntax `name -> ContextId` map.
pub open spec fn ctx_map_view(s: Seq<(String, ContextId)>) -> Seq<(Seq<char>, int)> {
    s.map_values(|p: (String, ContextId)| (p.0@, p.1@))
}

/// View of the recorded `(path, syntax index)` table.
pub open spec fn paths_view(s: Seq<(String, usize)>) -> Seq<(Seq<char>, int)> {
    s.map_values(|p: (String, usize)| (p.0@, p.1 as int))
}

/// View of a list of linked syntaxes.
pub open spec fn refs_view(s: Seq<SyntaxReference>) -> Seq<SynRefV> {
    s.map_values(|x: SyntaxReference| x@)
}

/// View of the flat context table.
pub open spec fn ctxs_view(s: Seq<Context>) -> Seq<ContextV> {
    s.map_values(|c: Context| c@)
}

/// View of a list of unlinked definitions.
pub open spec fn defs_view(s: Seq<SyntaxDefinition>) -> Seq<SynDefV> {
    s.map_values(|d: SyntaxDefinition| d@)
}

#[verifier::ext_equal]
pub ghost struct SynRefV {
    pub name: Seq<char>,
    pub file_extensions: Seq<Seq<char>>,
    pub scope: Seq<char>,
    pub first_line_match: Option<Seq<char>>,
    pub hidden: bool,
    pub variables: Seq<(Seq<char>, Seq<char>)>,
    pub contexts: Seq<(Seq<char>, int)>,
}

#[verifier::ext_equal]
pub ghost struct SyntaxSetV {
    pub syntaxes: Seq<SynRefV>,
    pub contexts: Seq<ContextV>,
    pub path_syntaxes: Seq<(Seq<char>, int)>,
}

#[verifier::ext_equal]
pub ghost struct BuilderV {
    pub syntaxes: Seq<SynDefV>,
    pub path_syntaxes: Seq<(Seq<char>, int)>,
}

/// A grammar whose per-name context map has been rewritten to `ContextId`s.
#[derive(Debug)]
pub struct SyntaxReference {
    pub name: String,
    pub file_extensions: Vec<String>,
    pub scope: Scope,
    pub first_line_match: Option<String>,
    pub hidden: bool,
    pub variables: Vec<(String, String)>,
    pub contexts: Vec<(String, ContextId)>,
}

impl View for SyntaxReference {
    type V = SynRefV;

    open spec fn view(&self) -> SynRefV {
        SynRefV {
            name: self.name@,
            file_extensions: strs_view(self.file_extensions@),
            scope: self.scope@,
            first_line_match: opt_str_view(self.first_line_match),
            hidden: self.hidden,
            variables: vars_view(self.variables@),
            contexts: ctx_map_view(self.contexts@),
        }
    }
}

pub fn clone_ctx_map(v: &Vec<(String, ContextId)>) -> (res: Vec<(String, ContextId)>)
    ensures
        ctx_map_view(res@) == ctx_map_view(v@),
{
    let mut out: Vec<(String, ContextId)> = Vec::new();
    let mut i: usize = 0;
    while i < v.len()
        invariant
            i <= v.len(),
            out@.len() == i,
            forall|j: int| 0 <= j < i ==> out@[j].0@ == v@[j].0@ && out@[j].1@ == v@[j].1@,
        decreases v.len() - i,
    {
        let name = v[i].0.clone();
        let id = v[i].1.clone();
        out.push((name, id));
        i = i + 1;
    }
    proof {
        assert(ctx_map_view(out@) =~= ctx_map_view(v@));
    }
    out
}

impl Clone for SyntaxReference {
    fn clone(&self) -> (res: SyntaxReference)
        ensures
            res@ == self@,
    {
        SyntaxReference {
            name: self.name.clone(),
            file_extensions: clone_strings(&self.file_extensions),
            scope: self.scope.clone(),
            first_line_match: clone_opt_string(&self.first_line_match),
            hidden: self.hidden,
            variables: clone_vars(&self.variables),
            contexts: clone_ctx_map(&self.contexts),
        }
    }
}

impl SyntaxReference {
    /// Looks up one of this syntax's contexts by name (first entry wins).
    pub fn context_id(&self, name: &str) -> (res: Option<ContextId>)
        ensures
            match map_lookup(self@.contexts, name@) {
                Option::Some(id) => res is Some && res.unwrap()@ == id,
                Option::None => res is None,
            },
    {
        find_in_ctx_map(&self.contexts, name)
    }
}

/// Linear search in a name -> id map; first match wins.
pub fn find_in_ctx_map(m: &Vec<(String, ContextId)>, name: &str) -> (res: Option<ContextId>)
    ensures
        match map_lookup(ctx_map_view(m@), name@) {
            Option::Some(id) => res is Some && res.unwrap()@ == id,
            Option::None => res is None,
        },
{
    let ghost mv = ctx_map_view(m@);
    let mut i: usize = 0;
    while i < m.len()
        invariant
            i <= m.len(),
            mv == ctx_map_view(m@),
            forall|j: int| 0 <= j < i ==> #[trigger] mv[j].0 != name@,
        decreases m.len() - i,
    {
        if str_eq_str(m[i].0.as_str(), name) {
            proof {
                crate::linker::lemma_map_lookup_at(mv, name@, i as int);
            }
            let id = m[i].1.clone();
            return Option::Some(id);
        }
        i = i + 1;
    }
    proof {
        crate::linker::lemma_map_lookup_none(mv, name@);
    }
    Option::None
}

// ---------------------------------------------------------------------------
// lookup specs over the view
// ---------------------------------------------------------------------------
/// Index of the first syntax whose extension list contains `ext` exactly.
pub open spec fn first_by_ext(syns: Seq<SynRefV>, ext: Seq<char>) -> Option<int>
    decreases syns.len(),
{
    if syns.len() == 0 {
        Option::None
    } else if syns[0].file_extensions.contains(ext) {
        Option::Some(0)
    } else {
        match first_by_ext(syns.drop_first(), ext) {
            Option::Some(i) => Option::Some(1 + i),
            Option::None => Option::None,
        }
    }
}

/// Index of the first syntax whose name equals `name` ASCII
/// case-insensitively.
pub open spec fn first_by_iname(syns: Seq<SynRefV>, name: Seq<char>) -> Option<int>
    decreases syns.len(),
{
    if syns.len() == 0 {
        Option::None
    } else if ascii_ieq(syns[0].name, name) {
        Option::Some(0)
    } else {
        match first_by_iname(syns.drop_first(), name) {
            Option::Some(i) => Option::Some(1 + i),
            Option::None => Option::None,
        }
    }
}

/// Token lookup: extension match is preferred; a name match (ASCII
/// case-insensitive) is the fallback.
pub open spec fn token_lookup(syns: Seq<SynRefV>, tok: Seq<char>) -> Option<int> {
    match first_by_ext(syns, tok) {
        Option::Some(i) => Option::Some(i),
        Option::None => first_by_iname(syns, tok),
    }
}

/// A stored path matches a query `p` when it equals `p` or ends with `"/" + p`;
/// the separator guards against matching inside a longer component.
pub open spec fn path_matches(stored: Seq<char>, p: Seq<char>) -> bool {
    stored == p || ends_with(stored, seq!['/'] + p)
}

/// The syntax index recorded for the first matching path entry.
pub open spec fn first_path_match(paths: Seq<(Seq<char>, int)>, p: Seq<char>) -> Option<int>
    decreases paths.len(),
{
    if paths.len() == 0 {
        Option::None
    } else if path_matches(paths[0].0, p) {
        Option::Some(paths[0].1)
    } else {
        first_path_match(paths.drop_first(), p)
    }
}

proof fn lemma_first_by_scope_at(syns: Seq<SynRefV>, scope: Seq<char>, i: int)
    requires
        0 <= i < syns.len(),
        syns[i].scope == scope,
        forall|j: int| 0 <= j < i ==> (#[trigger] syns[j]).scope != scope,
    ensures
        first_by_scope(syns, scope) == Option::Some(i),
    decreases i,
{
    if i > 0 {
        lemma_first_by_scope_at(syns.drop_first(), scope, i - 1);
    }
}

proof fn lemma_first_by_scope_none(syns: Seq<SynRefV>, scope: Seq<char>)
    requires
        forall|j: int| 0 <= j < syns.len() ==> (#[trigger] syns[j]).scope != scope,
    ensures
        first_by_scope(syns, scope) == Option::None::<int>,
    decreases syns.len(),
{
    if syns.len() > 0 {
        lemma_first_by_scope_none(syns.drop_first(), scope);
    }
}

proof fn lemma_first_by_name_at(syns: Seq<SynRefV>, name: Seq<char>, i: int)
    requires
        0 <= i < syns.len(),
        syns[i].name == name,
        forall|j: int| 0 <= j < i ==> (#[trigger] syns[j]).name != name,
    ensures
        first_by_name(syns, name) == Option::Some(i),
    decreases i,
{
    if i > 0 {
        lemma_first_by_name_at(syns.drop_first(), name, i - 1);
    }
}

proof fn lemma_first_by_name_none(syns: Seq<SynRefV>, name: Seq<char>)
    requires
        forall|j: int| 0 <= j < syns.len() ==> (#[trigger] syns[j]).name != name,
    ensures
        first_by_name(syns, name) == Option::None::<int>,
    decreases syns.len(),
{
    if syns.len() > 0 {
        lemma_first_by_name_none(syns.drop_first(), name);
    }
}

proof fn lemma_first_by_ext_at(syns: Seq<SynRefV>, ext: Seq<char>, i: int)
    requires
        0 <= i < syns.len(),
        syns[i].file_extensions.contains(ext),
        forall|j: int| 0 <= j < i ==> !(#[trigger] syns[j]).file_extensions.contains(ext),
    ensures
        first_by_ext(syns, ext) == Option::Some(i),
    decreases i,
{
    if i > 0 {
        lemma_first_by_ext_at(syns.drop_first(), ext, i - 1);
    }
}

proof fn lemma_first_by_ext_none(syns: Seq<SynRefV>, ext: Seq<char>)
    requires
        forall|j: int| 0 <= j < syns.len() ==> !(#[trigger] syns[j]).file_extensions.contains(ext),
    ensures
        first_by_ext(syns, ext) == Option::None::<int>,
    decreases syns.len(),
{
    if syns.len() > 0 {
        lemma_first_by_ext_none(syns.drop_first(), ext);
    }
}

/// Indices returned by the lookup specs are in bounds.
pub proof fn lemma_first_by_scope_in_bounds(syns: Seq<SynRefV>, scope: Seq<char>)
    requires
        first_by_scope(syns, scope) is Some,
    ensures
        0 <= first_by_scope(syns, scope).unwrap() < syns.len(),
    decreases syns.len(),
{
    if syns.len() > 0 && syns[0].scope != scope {
        lemma_first_by_scope_in_bounds(syns.drop_first(), scope);
    }
}

pub proof fn lemma_first_by_name_in_bounds(syns: Seq<SynRefV>, name: Seq<char>)
    requires
        first_by_name(syns, name) is Some,
    ensures
        0 <= first_by_name(syns, name).unwrap() < syns.len(),
    decreases syns.len(),
{
    if syns.len() > 0 && syns[0].name != name {
        lemma_first_by_name_in_bounds(syns.drop_first(), name);
    }
}

pub proof fn lemma_first_by_ext_in_bounds(syns: Seq<SynRefV>, ext: Seq<char>)
    requires
        first_by_ext(syns, ext) is Some,
    ensures
        0 <= first_by_ext(syns, ext).unwrap() < syns.len(),
    decreases syns.len(),
{
    if syns.len() > 0 && !syns[0].file_extensions.contains(ext) {
        lemma_first_by_ext_in_bounds(syns.drop_first(), ext);
    }
}

pub proof fn lemma_first_by_iname_in_bounds(syns: Seq<SynRefV>, name: Seq<char>)
    requires
        first_by_iname(syns, name) is Some,
    ensures
        0 <= first_by_iname(syns, name).unwrap() < syns.len(),
    decreases syns.len(),
{
    if syns.len() > 0 && !ascii_ieq(syns[0].name, name) {
        lemma_first_by_iname_in_bounds(syns.drop_first(), name);
    }
}

// ---------------------------------------------------------------------------
// the first-line cache
// ---------------------------------------------------------------------------
/// The cache rows that a run of syntaxes contributes: for every syntax with a
/// `first_line_match` whose pattern compiles, its pattern and index.
pub open spec fn cache_entries(syns: Seq<SynRefV>) -> Seq<(Seq<char>, int)>
    decreases syns.len(),
{
    if syns.len() == 0 {
        Seq::empty()
    } else {
        let rest = cache_entries(syns.drop_last());
        let i = syns.len() - 1;
        match syns[i].first_line_match {
            Option::Some(p) => if regex_compiles(p) {
                rest.push((p, i))
            } else {
                rest
            },
            Option::None => rest,
        }
    }
}

/// Syntax indices recorded in the cache rows are indices into the list.
pub proof fn lemma_cache_entries_bounds(syns: Seq<SynRefV>)
    ensures
        forall|k: int|
            0 <= k < cache_entries(syns).len() ==> 0 <= (#[trigger] cache_entries(syns)[k]).1
                < syns.len(),
    decreases syns.len(),
{
    if syns.len() > 0 {
        lemma_cache_entries_bounds(syns.drop_last());
        let rest = cache_entries(syns.drop_last());
        let i = syns.len() - 1;
        match syns[i].first_line_match {
            Option::Some(p) => {
                if regex_compiles(p) {
                    assert(cache_entries(syns) == rest.push((p, i)));
                } else {
                    assert(cache_entries(syns) == rest);
                }
            },
            Option::None => {
                assert(cache_entries(syns) == rest);
            },
        }
        assert(syns.drop_last().len() < syns.len());
    }
}

/// The first cache row whose regex finds a match in `line`, if any; the row
/// carries the index of the syntax to report.
pub open spec fn first_line_idx(entries: Seq<(Seq<char>, int)>, line: Seq<char>) -> Option<int>
    decreases entries.len(),
{
    if entries.len() == 0 {
        Option::None
    } else if regex_matches(entries[0].0, line) {
        Option::Some(entries[0].1)
    } else {
        first_line_idx(entries.drop_first(), line)
    }
}

proof fn lemma_first_line_idx_at(entries: Seq<(Seq<char>, int)>, line: Seq<char>, i: int)
    requires
        0 <= i < entries.len(),
        regex_matches(entries[i].0, line),
        forall|j: int| 0 <= j < i ==> !regex_matches((#[trigger] entries[j]).0, line),
    ensures
        first_line_idx(entries, line) == Option::Some(entries[i].1),
    decreases i,
{
    if i > 0 {
        lemma_first_line_idx_at(entries.drop_first(), line, i - 1);
    }
}

proof fn lemma_first_line_idx_none(entries: Seq<(Seq<char>, int)>, line: Seq<char>)
    requires
        forall|j: int| 0 <= j < entries.len() ==> !regex_matches((#[trigger] entries[j]).0, line),
    ensures
        first_line_idx(entries, line) == Option::None::<int>,
    decreases entries.len(),
{
    if entries.len() > 0 {
        lemma_first_line_idx_none(entries.drop_first(), line);
    }
}

/// A lazily built list of compiled first-line regexes with the index of the
/// syntax each came from, plus how many syntaxes have been processed.
pub struct FirstLineCache {
    pub regexes: Vec<(CompiledRegex, usize)>,
    pub cached_until: usize,
}

impl FirstLineCache {
    /// Brings the cache up to date with the syntax list: for every syntax in
    /// the unprocessed tail whose `first_line_match` compiles, a row is
    /// appended; patterns that fail to compile are skipped.
    fn ensure_filled(&mut self, syntaxes: &Vec<SyntaxReference>)
        requires
            old(self).cached_until <= refs_view(syntaxes@).len(),
            old(self).entries() == cache_entries(
                refs_view(syntaxes@).take(old(self).cached_until as int),
            ),
        ensures
            final(self).cached_until == refs_view(syntaxes@).len(),
            final(self).entries() == cache_entries(refs_view(syntaxes@)),
    {
        let ghost syns = refs_view(syntaxes@);
        if self.cached_until >= syntaxes.len() {
            proof {
                assert(syns.take(self.cached_until as int) =~= syns);
            }
            return ;
        }
        let mut i = self.cached_until;
        while i < syntaxes.len()
            invariant
                i <= syntaxes.len(),
                syns == refs_view(syntaxes@),
                syns.len() == syntaxes.len(),
                self.entries() == cache_entries(syns.take(i as int)),
                self.cached_until == old(self).cached_until,
            decreases syntaxes.len() - i,
        {
            let ghost rows0 = self.regexes@;
            proof {
                assert(syns[i as int] == syntaxes@[i as int]@);
                assert(syns.take(i + 1).drop_last() =~= syns.take(i as int));
                assert(syns.take(i + 1).last() == syns[i as int]);
            }
            match &syntaxes[i].first_line_match {
                Option::Some(pat) => {
                    match CompiledRegex::compile(pat.as_str()) {
                        Option::Some(re) => {
                            self.regexes.push((re, i));
                            proof {
                                assert forall|t: int|
                                    0 <= t < self.regexes@.len() implies self.entries()[t]
                                    == cache_entries(syns.take(i + 1))[t] by {
                                    if t < rows0.len() {
                                        assert(self.regexes@[t] == rows0[t]);
                                    } else {
                                        assert(self.regexes@[t].0.pat() == pat@);
                                    }
                                }
                                assert(self.entries() =~= cache_entries(syns.take(i + 1)));
                            }
                        },
                        Option::None => {
                            proof {
                                assert(self.entries() =~= cache_entries(syns.take(i + 1)));
                            }
                        },
                    }
                },
                Option::None => {
                    proof {
                        assert(self.entries() =~= cache_entries(syns.take(i + 1)));
                    }
                },
            }
            i = i + 1;
        }
        proof {
            assert(syns.take(syns.len() as int) =~= syns);
        }
        self.cached_until = syntaxes.len();
    }
}

impl FirstLineCache {
    /// The `(pattern, syntax index)` rows this cache holds.
    pub open spec fn entries(&self) -> Seq<(Seq<char>, int)> {
        self.regexes@.map_values(|p: (CompiledRegex, usize)| (p.0.pat(), p.1 as int))
    }

    pub fn new() -> (res: FirstLineCache)
        ensures
            res.entries() == Seq::<(Seq<char>, int)>::empty(),
            res.cached_until == 0,
    {
        let res = FirstLineCache { regexes: Vec::new(), cached_until: 0 };
        proof {
            assert(res.entries() =~= Seq::<(Seq<char>, int)>::empty());
        }
        res
    }
}

// ---------------------------------------------------------------------------
// the set itself
// ---------------------------------------------------------------------------
/// The immutable result of linking: a flat context table, the linked
/// syntaxes indexing into it, the recorded load paths, and a lazily built
/// first-line regex cache (not part of the durable state).
pub struct SyntaxSet {
    pub syntaxes: Vec<SyntaxReference>,
    pub contexts: Vec<Context>,
    pub path_syntaxes: Vec<(String, usize)>,
    pub first_line_cache: FirstLineCache,
}

impl View for SyntaxSet {
    type V = SyntaxSetV;

    open spec fn view(&self) -> SyntaxSetV {
        SyntaxSetV {
            syntaxes: refs_view(self.syntaxes@),
            contexts: ctxs_view(self.contexts@),
            path_syntaxes: paths_view(self.path_syntaxes@),
        }
    }
}

/// Recorded path entries point at existing syntaxes.
pub open spec fn paths_wf(s: SyntaxSetV) -> bool {
    forall|i: int|
        0 <= i < s.path_syntaxes.len() ==> 0 <= (#[trigger] s.path_syntaxes[i]).1
            < s.syntaxes.len()
}

/// Every id in a per-syntax context map indexes the flat context table.
pub open spec fn maps_wf(s: SyntaxSetV) -> bool {
    forall|i: int, j: int|
        0 <= i < s.syntaxes.len() && 0 <= j < (#[trigger] s.syntaxes[i]).contexts.len() ==> 0 <= (
        #[trigger] s.syntaxes[i].contexts[j]).1 < s.contexts.len()
}

/// The cache agrees with a prefix of the syntax list.
pub open spec fn cache_wf(cache: FirstLineCache, s: SyntaxSetV) -> bool {
    &&& cache.cached_until <= s.syntaxes.len()
    &&& cache.entries() == cache_entries(s.syntaxes.take(cache.cached_until as int))
}

impl SyntaxSet {
    /// An empty syntax set.
    pub fn new() -> (res: SyntaxSet)
        ensures
            res@.syntaxes == Seq::<SynRefV>::empty(),
            res@.contexts == Seq::<ContextV>::empty(),
            res@.path_syntaxes == Seq::<(Seq<char>, int)>::empty(),
            res.first_line_cache.cached_until == 0,
            res.first_line_cache.entries() == Seq::<(Seq<char>, int)>::empty(),
            cache_wf(res.first_line_cache, res@),
    {
        let res = SyntaxSet {
            syntaxes: Vec::new(),
            contexts: Vec::new(),
            path_syntaxes: Vec::new(),
            first_line_cache: FirstLineCache::new(),
        };
        proof {
            assert(res@.syntaxes =~= Seq::<SynRefV>::empty());
            assert(res@.contexts =~= Seq::<ContextV>::empty());
            assert(res@.path_syntaxes =~= Seq::<(Seq<char>, int)>::empty());
            assert(res@.syntaxes.take(0) =~= Seq::<SynRefV>::empty());
        }
        res
    }

    /// The list of syntaxes in the set.
    pub fn syntaxes(&self) -> (res: &Vec<SyntaxReference>)
        ensures
            res@.map_values(|s: SyntaxReference| s@) == self@.syntaxes,
    {
        &self.syntaxes
    }

    pub fn get_syntax(&self, index: usize) -> (res: &SyntaxReference)
        requires
            index < self@.syntaxes.len(),
        ensures
            res@ == self@.syntaxes[index as int],
    {
        &self.syntaxes[index]
    }

    /// O(1) access to a context through its handle.
    pub fn get_context(&self, context_id: &ContextId) -> (res: &Context)
        requires
            0 <= context_id@ < self@.contexts.len(),
        ensures
            res@ == self@.contexts[context_id@],
    {
        &self.contexts[context_id.index()]
    }

    /// Linear search by default scope; first match (insertion order) wins.
    pub fn find_syntax_by_scope(&self, scope: &Scope) -> (res: Option<&SyntaxReference>)
        ensures
            (res is Some) == (first_by_scope(self@.syntaxes, scope@) is Some),
            res is Some ==> res.unwrap()@ == self@.syntaxes[first_by_scope(
                self@.syntaxes,
                scope@,
            ).unwrap()],
    {
        let ghost syns = self@.syntaxes;
        let mut i: usize = 0;
        while i < self.syntaxes.len()
            invariant
                i <= self.syntaxes.len(),
                syns == self@.syntaxes,
                syns.len() == self.syntaxes.len(),
                forall|j: int| 0 <= j < i ==> (#[trigger] syns[j]).scope != scope@,
            decreases self.syntaxes.len() - i,
        {
            if self.syntaxes[i].scope.eq_scope(scope) {
                proof {
                    lemma_first_by_scope_at(syns, scope@, i as int);
                }
                return Option::Some(&self.syntaxes[i]);
            }
            i = i + 1;
        }
        proof {
            lemma_first_by_scope_none(syns, scope@);
        }
        Option::None
    }

    pub fn find_syntax_index_by_scope(&self, scope: &Scope) -> (res: Option<usize>)
        ensures
            match first_by_scope(self@.syntaxes, scope@) {
                Option::Some(i) => res is Some && res.unwrap() == i,
                Option::None => res is None,
            },
    {
        let ghost syns = self@.syntaxes;
        let mut i: usize = 0;
        while i < self.syntaxes.len()
            invariant
                i <= self.syntaxes.len(),
                syns == self@.syntaxes,
                syns.len() == self.syntaxes.len(),
                forall|j: int| 0 <= j < i ==> (#[trigger] syns[j]).scope != scope@,
            decreases self.syntaxes.len() - i,
        {
            if self.syntaxes[i].scope.eq_scope(scope) {
                proof {
                    lemma_first_by_scope_at(syns, scope@, i as int);
                }
                return Option::Some(i);
            }
            i = i + 1;
        }
        proof {
            lemma_first_by_scope_none(syns, scope@);
        }
        Option::None
    }

    /// Exact, case-sensitive lookup by display name.
    pub fn find_syntax_by_name(&self, name: &str) -> (res: Option<&SyntaxReference>)
        ensures
            (res is Some) == (first_by_name(self@.syntaxes, name@) is Some),
            res is Some ==> res.unwrap()@ == self@.syntaxes[first_by_name(
                self@.syntaxes,
                name@,
            ).unwrap()],
    {
        let ghost syns = self@.syntaxes;
        let mut i: usize = 0;
        while i < self.syntaxes.len()
            invariant
                i <= self.syntaxes.len(),
                syns == self@.syntaxes,
                syns.len() == self.syntaxes.len(),
                forall|j: int| 0 <= j < i ==> (#[trigger] syns[j]).name != name@,
            decreases self.syntaxes.len() - i,
        {
            if str_eq_str(self.syntaxes[i].name.as_str(), name) {
                proof {
                    lemma_first_by_name_at(syns, name@, i as int);
                }
                return Option::Some(&self.syntaxes[i]);
            }
            i = i + 1;
        }
        proof {
            lemma_first_by_name_none(syns, name@);
        }
        Option::None
    }

    pub fn find_syntax_index_by_name(&self, name: &str) -> (res: Option<usize>)
        ensures
            match first_by_name(self@.syntaxes, name@) {
                Option::Some(i) => res is Some && res.unwrap() == i,
                Option::None => res is None,
            },
    {
        let ghost syns = self@.syntaxes;
        let mut i: usize = 0;
        while i < self.syntaxes.len()
            invariant
                i <= self.syntaxes.len(),
                syns == self@.syntaxes,
                syns.len() == self.syntaxes.len(),
                forall|j: int| 0 <= j < i ==> (#[trigger] syns[j]).name != name@,
            decreases self.syntaxes.len() - i,
        {
            if str_eq_str(self.syntaxes[i].name.as_str(), name) {
                proof {
                    lemma_first_by_name_at(syns, name@, i as int);
                }
                return Option::Some(i);
            }
            i = i + 1;
        }
        proof {
            lemma_first_by_name_none(syns, name@);
        }
        Option::None
    }
}

/// Whether a string list contains `ext`, by exact comparison.
fn strings_contain(v: &Vec<String>, ext: &str) -> (r: bool)
    ensures
        r == strs_view(v@).contains(ext@),
{
    let mut i: usize = 0;
    while i < v.len()
        invariant
            i <= v.len(),
            forall|j: int| 0 <= j < i ==> strs_view(v@)[j] != ext@,
        decreases v.len() - i,
    {
        if str_eq_str(v[i].as_str(), ext) {
            proof {
                assert(strs_view(v@)[i as int] == ext@);
            }
            return true;
        }
        i = i + 1;
    }
    proof {
        if strs_view(v@).contains(ext@) {
            let j = choose|j: int| 0 <= j < strs_view(v@).len() && strs_view(v@)[j] == ext@;
            assert(strs_view(v@)[j] != ext@);
        }
    }
    false
}

impl SyntaxSet {
    /// First syntax whose `file_extensions` contains `extension` exactly.
    pub fn find_syntax_by_extension(&self, extension: &str) -> (res: Option<&SyntaxReference>)
        ensures
            (res is Some) == (first_by_ext(self@.syntaxes, extension@) is Some),
            res is Some ==> res.unwrap()@ == self@.syntaxes[first_by_ext(
                self@.syntaxes,
                extension@,
            ).unwrap()],
    {
        let ghost syns = self@.syntaxes;
        let mut i: usize = 0;
        while i < self.syntaxes.len()
            invariant
                i <= self.syntaxes.len(),
                syns == self@.syntaxes,
                syns.len() == self.syntaxes.len(),
                forall|j: int| 0 <= j < i ==> !(#[trigger] syns[j]).file_extensions.contains(
                    extension@,
                ),
            decreases self.syntaxes.len() - i,
        {
            if strings_contain(&self.syntaxes[i].file_extensions, extension) {
                proof {
                    lemma_first_by_ext_at(syns, extension@, i as int);
                }
                return Option::Some(&self.syntaxes[i]);
            }
            i = i + 1;
        }
        proof {
            lemma_first_by_ext_none(syns, extension@);
        }
        Option::None
    }

    /// Searches first by extension, then by ASCII case-insensitive name:
    /// handy when all that is known is a short token such as `rb`.
    pub fn find_syntax_by_token(&self, s: &str) -> (res: Option<&SyntaxReference>)
        ensures
            (res is Some) == (token_lookup(self@.syntaxes, s@) is Some),
            res is Some ==> res.unwrap()@ == self@.syntaxes[token_lookup(
                self@.syntaxes,
                s@,
            ).unwrap()],
    {
        let ext_res = self.find_syntax_by_extension(s);
        if ext_res.is_some() {
            proof {
                lemma_first_by_ext_in_bounds(self@.syntaxes, s@);
            }
            return ext_res;
        }
        let ghost syns = self@.syntaxes;
        let mut i: usize = 0;
        while i < self.syntaxes.len()
            invariant
                i <= self.syntaxes.len(),
                syns == self@.syntaxes,
                syns.len() == self.syntaxes.len(),
                first_by_ext(syns, s@) is None,
                forall|j: int| 0 <= j < i ==> !ascii_ieq((#[trigger] syns[j]).name, s@),
            decreases self.syntaxes.len() - i,
        {
            if str_ieq(self.syntaxes[i].name.as_str(), s) {
                proof {
                    lemma_first_by_iname_at(syns, s@, i as int);
                }
                return Option::Some(&self.syntaxes[i]);
            }
            i = i + 1;
        }
        proof {
            lemma_first_by_iname_none(syns, s@);
        }
        Option::None
    }

    /// Tries to find the syntax for a file from its first line, using the
    /// `first_line_match` regexes that come with the grammars (shebangs,
    /// mode lines). Fills the lazy regex cache, hence `&mut self`; the
    /// durable state is untouched.
    pub fn find_syntax_by_first_line(&mut self, s: &str) -> (res: Option<&SyntaxReference>)
        requires
            cache_wf(old(self).first_line_cache, old(self)@),
        ensures
            final(self)@ == old(self)@,
            cache_wf(final(self).first_line_cache, final(self)@),
            ({
                let found = first_line_idx(cache_entries(old(self)@.syntaxes), s@);
                match found {
                    Option::Some(i) => res is Some && 0 <= i < old(self)@.syntaxes.len()
                        && res.unwrap()@ == old(self)@.syntaxes[i],
                    Option::None => res is None,
                }
            }),
    {
        let ghost syns = self@.syntaxes;
        self.first_line_cache.ensure_filled(&self.syntaxes);
        proof {
            lemma_cache_entries_bounds(syns);
            assert(syns.take(syns.len() as int) =~= syns);
            assert(self@ == old(self)@);
            assert(cache_wf(self.first_line_cache, self@));
        }
        let ghost entries = cache_entries(syns);
        let n = self.first_line_cache.regexes.len();
        let mut k: usize = 0;
        while k < n
            invariant
                k <= n,
                self@ == old(self)@,
                cache_wf(self.first_line_cache, self@),
                syns == self@.syntaxes,
                n == self.first_line_cache.regexes@.len(),
                self.first_line_cache.entries() == entries,
                entries == cache_entries(syns),
                self.first_line_cache.cached_until == syns.len(),
                syns.len() == self.syntaxes.len(),
                forall|t: int|
                    0 <= t < entries.len() ==> 0 <= (#[trigger] entries[t]).1 < syns.len(),
                forall|j: int| 0 <= j < k ==> !regex_matches((#[trigger] entries[j]).0, s@),
            decreases n - k,
        {
            proof {
                assert(entries[k as int] == (
                    self.first_line_cache.regexes@[k as int].0.pat(),
                    self.first_line_cache.regexes@[k as int].1 as int,
                ));
            }
            if self.first_line_cache.regexes[k].0.matches(s) {
                let idx = self.first_line_cache.regexes[k].1;
                proof {
                    lemma_first_line_idx_at(entries, s@, k as int);
                }
                return Option::Some(&self.syntaxes[idx]);
            }
            k = k + 1;
        }
        proof {
            lemma_first_line_idx_none(entries, s@);
        }
        Option::None
    }

    /// Lookup by the path a syntax was loaded from: a stored path matches
    /// when it equals `path` or ends with `"/" + path`.
    pub fn find_syntax_by_path(&self, path: &str) -> (res: Option<&SyntaxReference>)
        requires
            paths_wf(self@),
        ensures
            (res is Some) == (first_path_match(self@.path_syntaxes, path@) is Some),
            res is Some ==> res.unwrap()@ == self@.syntaxes[first_path_match(
                self@.path_syntaxes,
                path@,
            ).unwrap()],
    {
        let mut slash_path = String::new();
        slash_path.append("/");
        slash_path.append(path);
        proof {
            reveal_strlit("/");
            assert(slash_path@ =~= seq!['/'] + path@);
        }
        let ghost paths = self@.path_syntaxes;
        let mut i: usize = 0;
        while i < self.path_syntaxes.len()
            invariant
                i <= self.path_syntaxes.len(),
                paths == self@.path_syntaxes,
                paths.len() == self.path_syntaxes.len(),
                paths_wf(self@),
                slash_path@ == seq!['/'] + path@,
                forall|j: int| 0 <= j < i ==> !path_matches((#[trigger] paths[j]).0, path@),
            decreases self.path_syntaxes.len() - i,
        {
            let stored = self.path_syntaxes[i].0.as_str();
            if str_ends_with(stored, slash_path.as_str()) || str_eq_str(stored, path) {
                proof {
                    lemma_first_path_match_at(paths, path@, i as int);
                    assert(0 <= paths[i as int].1 < self@.syntaxes.len());
                }
                return Option::Some(&self.syntaxes[self.path_syntaxes[i].1]);
            }
            i = i + 1;
        }
        proof {
            lemma_first_path_match_none(paths, path@);
        }
        Option::None
    }

    /// The `Plain Text` fallback syntax. Sets are expected to contain it;
    /// building after `load_plain_text_syntax` guarantees it.
    pub fn find_syntax_plain_text(&self) -> (res: &SyntaxReference)
        requires
            first_by_name(self@.syntaxes, "Plain Text"@) is Some,
        ensures
            res@ == self@.syntaxes[first_by_name(self@.syntaxes, "Plain Text"@).unwrap()],
    {
        let res = self.find_syntax_by_name("Plain Text");
        match res {
            Option::Some(r) => r,
            Option::None => {
                proof {
                    assert(false);
                }
                unreached()
            },
        }
    }
}

proof fn lemma_first_path_match_at(paths: Seq<(Seq<char>, int)>, p: Seq<char>, i: int)
    requires
        0 <= i < paths.len(),
        path_matches(paths[i].0, p),
        forall|j: int| 0 <= j < i ==> !path_matches((#[trigger] paths[j]).0, p),
    ensures
        first_path_match(paths, p) == Option::Some(paths[i].1),
    decreases i,
{
    if i > 0 {
        lemma_first_path_match_at(paths.drop_first(), p, i - 1);
    }
}

proof fn lemma_first_path_match_none(paths: Seq<(Seq<char>, int)>, p: Seq<char>)
    requires
        forall|j: int| 0 <= j < paths.len() ==> !path_matches((#[trigger] paths[j]).0, p),
    ensures
        first_path_match(paths, p) == Option::None::<int>,
    decreases paths.len(),
{
    if paths.len() > 0 {
        lemma_first_path_match_none(paths.drop_first(), p);
    }
}

proof fn lemma_first_by_iname_at(syns: Seq<SynRefV>, name: Seq<char>, i: int)
    requires
        0 <= i < syns.len(),
        ascii_ieq(syns[i].name, name),
        forall|j: int| 0 <= j < i ==> !ascii_ieq((#[trigger] syns[j]).name, name),
    ensures
        first_by_iname(syns, name) == Option::Some(i),
    decreases i,
{
    if i > 0 {
        lemma_first_by_iname_at(syns.drop_first(), name, i - 1);
    }
}

proof fn lemma_first_by_iname_none(syns: Seq<SynRefV>, name: Seq<char>)
    requires
        forall|j: int| 0 <= j < syns.len() ==> !ascii_ieq((#[trigger] syns[j]).name, name),
    ensures
        first_by_iname(syns, name) == Option::None::<int>,
    decreases syns.len(),
{
    if syns.len() > 0 {
        lemma_first_by_iname_none(syns.drop_first(), name);
    }
}

impl Clone for SyntaxSet {
    /// Deep copy of the durable state; the clone starts with a fresh, empty
    /// first-line cache.
    fn clone(&self) -> (res: SyntaxSet)
        ensures
            res@ == self@,
            res.first_line_cache.cached_until == 0,
            res.first_line_cache.entries() == Seq::<(Seq<char>, int)>::empty(),
            cache_wf(res.first_line_cache, res@),
    {
        let mut syntaxes: Vec<SyntaxReference> = Vec::new();
        let mut i: usize = 0;
        while i < self.syntaxes.len()
            invariant
                i <= self.syntaxes.len(),
                syntaxes@.len() == i,
                forall|j: int| 0 <= j < i ==> (#[trigger] syntaxes@[j])@ == self.syntaxes@[j]@,
            decreases self.syntaxes.len() - i,
        {
            syntaxes.push(self.syntaxes[i].clone());
            i = i + 1;
        }
        let mut contexts: Vec<Context> = Vec::new();
        let mut k: usize = 0;
        while k < self.contexts.len()
            invariant
                k <= self.contexts.len(),
                contexts@.len() == k,
                forall|j: int| 0 <= j < k ==> (#[trigger] contexts@[j])@ == self.contexts@[j]@,
            decreases self.contexts.len() - k,
        {
            contexts.push(self.contexts[k].clone());
            k = k + 1;
        }
        let mut path_syntaxes: Vec<(String, usize)> = Vec::new();
        let mut t: usize = 0;
        while t < self.path_syntaxes.len()
            invariant
                t <= self.path_syntaxes.len(),
                path_syntaxes@.len() == t,
                forall|j: int|
                    0 <= j < t ==> (#[trigger] path_syntaxes@[j]).0@ == self.path_syntaxes@[j].0@
                        && path_syntaxes@[j].1 == self.path_syntaxes@[j].1,
            decreases self.path_syntaxes.len() - t,
        {
            let p = self.path_syntaxes[t].0.clone();
            let idx = self.path_syntaxes[t].1;
            path_syntaxes.push((p, idx));
            t = t + 1;
        }
        let res = SyntaxSet {
            syntaxes,
            contexts,
            path_syntaxes,
            first_line_cache: FirstLineCache::new(),
        };
        proof {
            assert(res@.syntaxes =~= self@.syntaxes);
            assert(res@.contexts =~= self@.contexts);
            assert(res@.path_syntaxes =~= self@.path_syntaxes);
            assert(res@ =~= self@);
            assert(res@.syntaxes.take(0) =~= Seq::<SynRefV>::empty());
        }
        res
    }
}

impl Default for SyntaxSet {
    /// The empty syntax set.
    fn default() -> (res: SyntaxSet)
        ensures
            res@.syntaxes == Seq::<SynRefV>::empty(),
            res@.contexts == Seq::<ContextV>::empty(),
            res@.path_syntaxes == Seq::<(Seq<char>, int)>::empty(),
            res.first_line_cache.cached_until == 0,
            res.first_line_cache.entries() == Seq::<(Seq<char>, int)>::empty(),
            cache_wf(res.first_line_cache, res@),
    {
        SyntaxSet::new()
    }
}

// ---------------------------------------------------------------------------
// the round trip back to a builder
// ---------------------------------------------------------------------------
/// One linked syntax re-materialized as an unlinked definition: every map
/// entry pairs its name with the context it points at.
pub open spec fn def_of_ref(r: SynRefV, ctxs: Seq<ContextV>) -> SynDefV {
    SynDefV {
        name: r.name,
        file_extensions: r.file_extensions,
        scope: r.scope,
        first_line_match: r.first_line_match,
        hidden: r.hidden,
        variables: r.variables,
        contexts: Seq::new(r.contexts.len(), |j: int| (r.contexts[j].0, ctxs[r.contexts[j].1])),
    }
}

/// The inverse of `build_v` up to linking: definitions keep the rewritten
/// (`Direct`) references and the recorded paths survive.
pub open spec fn into_builder_v(s: SyntaxSetV) -> BuilderV {
    BuilderV {
        syntaxes: Seq::new(s.syntaxes.len(), |i: int| def_of_ref(s.syntaxes[i], s.contexts)),
        path_syntaxes: s.path_syntaxes,
    }
}

impl SyntaxSet {
    /// Moves the set back into a builder so that more syntaxes can be added
    /// and everything relinked. Direct references inside patterns survive as
    /// stale labels that the next `build` passes through; the first-line
    /// cache is discarded.
    pub fn into_builder(self) -> (res: SyntaxSetBuilder)
        requires
            maps_wf(self@),
        ensures
            res@ == into_builder_v(self@),
    {
        let ghost sv = self@;
        let SyntaxSet { syntaxes, contexts, path_syntaxes, first_line_cache: _ } = self;
        let mut builder_syntaxes: Vec<SyntaxDefinition> = Vec::new();
        let mut i: usize = 0;
        while i < syntaxes.len()
            invariant
                i <= syntaxes.len(),
                sv.syntaxes == refs_view(syntaxes@),
                sv.contexts == ctxs_view(contexts@),
                maps_wf(sv),
                sv.syntaxes.len() == syntaxes.len(),
                builder_syntaxes@.len() == i,
                forall|t: int|
                    0 <= t < i ==> (#[trigger] builder_syntaxes@[t])@ == def_of_ref(
                        sv.syntaxes[t],
                        sv.contexts,
                    ),
            decreases syntaxes.len() - i,
        {
            let ghost r = sv.syntaxes[i as int];
            let syn = &syntaxes[i];
            let mut def_contexts: Vec<(String, Context)> = Vec::new();
            let mut j: usize = 0;
            while j < syn.contexts.len()
                invariant
                    j <= syn.contexts.len(),
                    i < syntaxes.len(),
                    syn == &syntaxes@[i as int],
                    sv.syntaxes == refs_view(syntaxes@),
                    sv.contexts == ctxs_view(contexts@),
                    maps_wf(sv),
                    sv.syntaxes.len() == syntaxes.len(),
                    r == sv.syntaxes[i as int],
                    r.contexts.len() == syn.contexts.len(),
                    sv.contexts.len() == contexts.len(),
                    def_contexts@.len() == j,
                    forall|t: int|
                        0 <= t < j ==> (#[trigger] def_contexts@[t]).0@ == r.contexts[t].0
                            && def_contexts@[t].1@ == sv.contexts[r.contexts[t].1],
                decreases syn.contexts.len() - j,
            {
                proof {
                    assert(ctx_map_view(syn.contexts@)[j as int] == r.contexts[j as int]);
                    assert(0 <= r.contexts[j as int].1 < sv.contexts.len());
                }
                let cname = syn.contexts[j].0.clone();
                let cid = syn.contexts[j].1.index();
                let cbody = contexts[cid].clone();
                def_contexts.push((cname, cbody));
                j = j + 1;
            }
            let def = SyntaxDefinition {
                name: syn.name.clone(),
                file_extensions: clone_strings(&syn.file_extensions),
                scope: syn.scope.clone(),
                first_line_match: clone_opt_string(&syn.first_line_match),
                hidden: syn.hidden,
                variables: clone_vars(&syn.variables),
                contexts: def_contexts,
            };
            proof {
                assert(named_ctxs_view(def.contexts@) =~= def_of_ref(r, sv.contexts).contexts);
                assert(def@ =~= def_of_ref(r, sv.contexts));
            }
            builder_syntaxes.push(def);
            i = i + 1;
        }
        let res = SyntaxSetBuilder { syntaxes: builder_syntaxes, path_syntaxes };
        proof {
            assert(res@.syntaxes =~= into_builder_v(sv).syntaxes);
            assert(res@ =~= into_builder_v(sv));
        }
        res
    }
}

// ---------------------------------------------------------------------------
// linking helpers
// ---------------------------------------------------------------------------
/// Stable insertion sort of a definition's contexts by name
/// (byte-lexicographic), realizing `sort_named_ctxs` exactly.
fn sort_contexts(v: Vec<(String, Context)>) -> (res: Vec<(String, Context)>)
    ensures
        named_ctxs_view(res@) == sort_named_ctxs(named_ctxs_view(v@)),
{
    let ghost orig = named_ctxs_view(v@);
    let mut rest = v;
    let mut res: Vec<(String, Context)> = Vec::new();
    proof {
        assert(named_ctxs_view(rest@) =~= orig.skip(0));
        assert(orig.take(0) =~= Seq::<(Seq<char>, ContextV)>::empty());
        assert(named_ctxs_view(res@) =~= sort_named_ctxs(orig.take(0)));
    }
    while rest.len() > 0
        invariant
            rest@.len() <= orig.len(),
            named_ctxs_view(rest@) =~= orig.skip(orig.len() - rest@.len()),
            named_ctxs_view(res@) == sort_named_ctxs(orig.take(orig.len() - rest@.len())),
        decreases rest.len(),
    {
        let ghost i = orig.len() - rest@.len();
        let ghost resv = named_ctxs_view(res@);
        let ghost restv0 = rest@;
        let x = rest.remove(0);
        let ghost xv = (x.0@, x.1@);
        proof {
            assert(named_ctxs_view(restv0)[0] == orig.skip(i)[0]);
            assert(xv == orig[i]);
            assert forall|t: int| 0 <= t < rest@.len() implies named_ctxs_view(rest@)[t]
                == orig.skip(i + 1)[t] by {
                assert(rest@[t] == restv0[t + 1]);
                assert(named_ctxs_view(restv0)[t + 1] == orig.skip(i)[t + 1]);
            }
            assert(named_ctxs_view(rest@) =~= orig.skip(i + 1));
        }
        let mut p: usize = 0;
        while p < res.len() && str_le(res[p].0.as_str(), x.0.as_str())
            invariant
                p <= res.len(),
                resv == named_ctxs_view(res@),
                xv == (x.0@, x.1@),
                forall|j: int| 0 <= j < p ==> lex_le((#[trigger] resv[j]).0, xv.0),
            decreases res.len() - p,
        {
            proof {
                assert(resv[p as int].0 == res@[p as int].0@);
                assert(lex_le(resv[p as int].0, xv.0));
            }
            p = p + 1;
        }
        res.insert(p, x);
        proof {
            crate::linker::lemma_insert_sorted_at(resv, xv, p as int);
            assert(named_ctxs_view(res@) =~= resv.take(p as int) + seq![xv] + resv.skip(p as int));
            assert(orig.take(i + 1).drop_last() =~= orig.take(i));
            assert(orig.take(i + 1).last() == orig[i]);
            assert(sort_named_ctxs(orig.take(i + 1)) == crate::linker::insert_sorted(
                sort_named_ctxs(orig.take(i)),
                xv,
            ));
        }
    }
    proof {
        assert(orig.take(orig.len() - rest@.len()) =~= orig);
        assert(orig == named_ctxs_view(v@));
    }
    res
}

/// First syntax in a list with the given default scope.
fn find_index_by_scope_in(syntaxes: &Vec<SyntaxReference>, scope: &Scope) -> (res: Option<usize>)
    ensures
        match first_by_scope(refs_view(syntaxes@), scope@) {
            Option::Some(i) => res is Some && res.unwrap() == i,
            Option::None => res is None,
        },
{
    let ghost syns = refs_view(syntaxes@);
    let mut i: usize = 0;
    while i < syntaxes.len()
        invariant
            i <= syntaxes.len(),
            syns == refs_view(syntaxes@),
            syns.len() == syntaxes.len(),
            forall|j: int| 0 <= j < i ==> (#[trigger] syns[j]).scope != scope@,
        decreases syntaxes.len() - i,
    {
        if syntaxes[i].scope.eq_scope(scope) {
            proof {
                lemma_first_by_scope_at(syns, scope@, i as int);
            }
            return Option::Some(i);
        }
        i = i + 1;
    }
    proof {
        lemma_first_by_scope_none(syns, scope@);
    }
    Option::None
}

/// First syntax in a list with the given display name.
fn find_index_by_name_in(syntaxes: &Vec<SyntaxReference>, name: &str) -> (res: Option<usize>)
    ensures
        match first_by_name(refs_view(syntaxes@), name@) {
            Option::Some(i) => res is Some && res.unwrap() == i,
            Option::None => res is None,
        },
{
    let ghost syns = refs_view(syntaxes@);
    let mut i: usize = 0;
    while i < syntaxes.len()
        invariant
            i <= syntaxes.len(),
            syns == refs_view(syntaxes@),
            syns.len() == syntaxes.len(),
            forall|j: int| 0 <= j < i ==> (#[trigger] syns[j]).name != name@,
        decreases syntaxes.len() - i,
    {
        if str_eq_str(syntaxes[i].name.as_str(), name) {
            proof {
                lemma_first_by_name_at(syns, name@, i as int);
            }
            return Option::Some(i);
        }
        i = i + 1;
    }
    proof {
        lemma_first_by_name_none(syns, name@);
    }
    Option::None
}

/// Rewrites one reference in place: a resolvable target becomes `Direct`,
/// anything else is left untouched.
fn link_ref(context_ref: &mut ContextReference, syn: &SyntaxReference, syntaxes: &Vec<
    SyntaxReference,
>)
    ensures
        final(context_ref)@ == resolve_ref(old(context_ref)@, syn@, refs_view(syntaxes@)),
{
    let ghost syns = refs_view(syntaxes@);
    let ghost r0 = context_ref@;
    let linked: Option<ContextId> = match &*context_ref {
        ContextReference::Named(s) | ContextReference::Inline(s) => {
            if str_eq_str(s.as_str(), "$top_level_main") {
                find_in_ctx_map(&syn.contexts, "main")
            } else {
                find_in_ctx_map(&syn.contexts, s.as_str())
            }
        },
        ContextReference::ByScope { scope, sub_context } => {
            let sub_name: &str = match sub_context {
                Option::Some(s) => s.as_str(),
                Option::None => "main",
            };
            match find_index_by_scope_in(syntaxes, scope) {
                Option::Some(i) => {
                    proof {
                        lemma_first_by_scope_in_bounds(syns, scope@);
                        assert(syns[i as int] == syntaxes@[i as int]@);
                    }
                    find_in_ctx_map(&syntaxes[i].contexts, sub_name)
                },
                Option::None => Option::None,
            }
        },
        ContextReference::File { name, sub_context } => {
            let sub_name: &str = match sub_context {
                Option::Some(s) => s.as_str(),
                Option::None => "main",
            };
            match find_index_by_name_in(syntaxes, name) {
                Option::Some(i) => {
                    proof {
                        lemma_first_by_name_in_bounds(syns, name@);
                        assert(syns[i as int] == syntaxes@[i as int]@);
                    }
                    find_in_ctx_map(&syntaxes[i].contexts, sub_name)
                },
                Option::None => Option::None,
            }
        },
        ContextReference::Direct(_) => Option::None,
    };
    match linked {
        Option::Some(id) => {
            *context_ref = ContextReference::Direct(id);
        },
        Option::None => {},
    }
}

/// Rewrites every reference of a match pattern: the `Push`/`SetContexts`
/// targets and the `with_prototype` slot.
fn link_match_pat(match_pat: &mut MatchPattern, syn: &SyntaxReference, syntaxes: &Vec<
    SyntaxReference,
>)
    ensures
        final(match_pat)@ == (MatchPatV {
            operation: link_op(old(match_pat)@.operation, syn@, refs_view(syntaxes@)),
            with_prototype: match old(match_pat)@.with_prototype {
                Option::Some(r) => Option::Some(resolve_ref(r, syn@, refs_view(syntaxes@))),
                Option::None => Option::None,
            },
            ..old(match_pat)@
        }),
{
    let ghost syns = refs_view(syntaxes@);
    match &mut match_pat.operation {
        MatchOperation::Push(refs) => {
            link_ref_list(refs, syn, syntaxes);
        },
        MatchOperation::SetContexts(refs) => {
            link_ref_list(refs, syn, syntaxes);
        },
        MatchOperation::Pop => {},
        MatchOperation::NoOp => {},
    }
    match &mut match_pat.with_prototype {
        Option::Some(r) => {
            link_ref(r, syn, syntaxes);
        },
        Option::None => {},
    }
}

/// Rewrites every reference in a target list.
fn link_ref_list(refs: &mut Vec<ContextReference>, syn: &SyntaxReference, syntaxes: &Vec<
    SyntaxReference,
>)
    ensures
        seq_view(final(refs)@) =~= seq_view(old(refs)@).map_values(
            |r: CtxRefV| resolve_ref(r, syn@, refs_view(syntaxes@)),
        ),
{
    let ghost syns = refs_view(syntaxes@);
    let ghost refs0 = seq_view(old(refs)@);
    let mut i: usize = 0;
    while i < refs.len()
        invariant
            i <= refs.len(),
            refs@.len() == refs0.len(),
            forall|j: int|
                0 <= j < i ==> (#[trigger] refs@[j])@ == resolve_ref(refs0[j], syn@, syns),
            forall|j: int| i <= j < refs@.len() ==> (#[trigger] refs@[j])@ == refs0[j],
            syns == refs_view(syntaxes@),
        decreases refs.len() - i,
    {
        let mut r = refs.remove(i);
        link_ref(&mut r, syn, syntaxes);
        refs.insert(i, r);
        i = i + 1;
    }
}

/// Resolves a name to an in-bounds context id through a map whose ids all
/// point into `n` contexts.
fn mark_lookup(m: &Vec<(String, ContextId)>, name: &str, n: usize) -> (res: Option<usize>)
    requires
        forall|j: int|
            0 <= j < ctx_map_view(m@).len() ==> 0 <= (#[trigger] ctx_map_view(m@)[j]).1 < n,
    ensures
        match map_lookup(ctx_map_view(m@), name@) {
            Option::Some(id) => res is Some && res.unwrap() == id && 0 <= id < n,
            Option::None => res is None,
        },
{
    match find_in_ctx_map(m, name) {
        Option::Some(id) => {
            proof {
                crate::linker::lemma_map_lookup_in(ctx_map_view(m@), name@);
            }
            Option::Some(id.index())
        },
        Option::None => Option::None,
    }
}
/// Pushes onto `stack` every context id that `p` contributes to the
/// no-prototype closure: named or inline `Push`/`SetContexts` targets, and
/// `Include`s of named contexts, resolved through the current syntax's map.
#[verifier::rlimit(100)]
fn push_pattern_targets(p: &Pattern, m: &Vec<(String, ContextId)>, n: usize, stack: &mut Vec<
    usize,
>)
    requires
        forall|j: int|
            0 <= j < ctx_map_view(m@).len() ==> 0 <= (#[trigger] ctx_map_view(m@)[j]).1 < n,
    ensures
        final(stack)@.len() >= old(stack)@.len(),
        forall|k: int| 0 <= k < old(stack)@.len() ==> final(stack)@[k] == old(stack)@[k],
        forall|k: int|
            old(stack)@.len() <= k < final(stack)@.len() ==> (#[trigger] final(stack)@[k]) < n
                && crate::linker::pattern_marks(p@, ctx_map_view(m@), final(stack)@[k] as int),
        forall|b: int|
            #[trigger] crate::linker::pattern_marks(p@, ctx_map_view(m@), b) ==> 0 <= b < n
                && exists|k: int|
                old(stack)@.len() <= k < final(stack)@.len() && final(stack)@[k] == b,
{
    let ghost mv = ctx_map_view(m@);
    let ghost len0 = old(stack)@.len() as int;
    match p {
        Pattern::Match(mp) => {
            match &mp.operation {
                MatchOperation::Push(refs) | MatchOperation::SetContexts(refs) => {
                    let ghost targets = seq_view(refs@);
                    let mut ri: usize = 0;
                    while ri < refs.len()
                        invariant
                            mv == ctx_map_view(m@),
                            forall|j: int| 0 <= j < mv.len() ==> 0 <= (#[trigger] mv[j]).1 < n,
                            targets == seq_view(refs@),
                            ri <= refs@.len(),
                            len0 == old(stack)@.len(),
                            stack@.len() >= len0,
                            forall|k: int| 0 <= k < len0 ==> stack@[k] == old(stack)@[k],
                            forall|k: int|
                                len0 <= k < stack@.len() ==> (#[trigger] stack@[k]) < n && exists|
                                    j: int,
                                |
                                    0 <= j < ri && crate::linker::mark_target(
                                        mv,
                                        #[trigger] targets[j],
                                    ) == Option::Some(stack@[k] as int),
                            forall|j: int|
                                0 <= j < ri ==> match crate::linker::mark_target(
                                    mv,
                                    #[trigger] targets[j],
                                ) {
                                    Option::Some(b) => exists|k: int|
                                        len0 <= k < stack@.len() && stack@[k] == b,
                                    Option::None => true,
                                },
                        decreases refs@.len() - ri,
                    {
                        proof {
                            assert(targets[ri as int] == refs@[ri as int]@);
                        }
                        let ghost stack_prev = stack@;
                        match &refs[ri] {
                            ContextReference::Named(s) | ContextReference::Inline(s) => {
                                match mark_lookup(m, s.as_str(), n) {
                                    Option::Some(b) => {
                                        proof {
                                            assert(crate::linker::mark_target(
                                                mv,
                                                targets[ri as int],
                                            ) == Option::Some(b as int));
                                        }
                                        stack.push(b);
                                        proof {
                                            assert(stack@ == stack_prev.push(b));
                                            assert(stack@[stack@.len() - 1] == b);
                                        }
                                    },
                                    Option::None => {},
                                }
                            },
                            _ => {},
                        }
                        proof {
                            assert(forall|k: int|
                                0 <= k < stack_prev.len() ==> stack@[k] == stack_prev[k]);
                            assert forall|k: int|
                                len0 <= k < stack@.len() implies (#[trigger] stack@[k]) < n
                                && exists|j: int|
                                0 <= j < ri + 1 && crate::linker::mark_target(
                                    mv,
                                    #[trigger] targets[j],
                                ) == Option::Some(stack@[k] as int) by {
                                if k < stack_prev.len() {
                                    assert(stack@[k] == stack_prev[k]);
                                    let j = choose|j: int|
                                        0 <= j < ri && crate::linker::mark_target(
                                            mv,
                                            #[trigger] targets[j],
                                        ) == Option::Some(stack_prev[k] as int);
                                    assert(crate::linker::mark_target(mv, targets[j])
                                        == Option::Some(stack@[k] as int));
                                } else {
                                    assert(crate::linker::mark_target(mv, targets[ri as int])
                                        == Option::Some(stack@[k] as int));
                                }
                            }
                            assert forall|j: int| 0 <= j < ri + 1 implies match crate::linker::mark_target(
                                mv,
                                #[trigger] targets[j],
                            ) {
                                Option::Some(b) => exists|k: int|
                                    len0 <= k < stack@.len() && stack@[k] == b,
                                Option::None => true,
                            } by {
                                if j < ri {
                                    match crate::linker::mark_target(mv, targets[j]) {
                                        Option::Some(b) => {
                                            let k = choose|k: int|
                                                len0 <= k < stack_prev.len() && stack_prev[k]
                                                    == b;
                                            assert(stack@[k] == b);
                                        },
                                        Option::None => {},
                                    }
                                }
                            }
                        }
                        ri = ri + 1;
                    }
                    proof {
                        assert forall|b: int|
                            #[trigger] crate::linker::pattern_marks(p@, mv, b) implies 0 <= b < n
                            && exists|k: int| len0 <= k < stack@.len() && stack@[k] == b by {
                            let j = choose|j: int|
                                0 <= j < targets.len() && crate::linker::mark_target(
                                    mv,
                                    #[trigger] targets[j],
                                ) == Option::Some(b);
                            crate::linker::lemma_map_lookup_in(mv, match targets[j] {
                                CtxRefV::Named { name } => name,
                                CtxRefV::Inline { name } => name,
                                _ => Seq::empty(),
                            });
                        }
                        assert forall|k: int|
                            len0 <= k < stack@.len() implies (#[trigger] stack@[k]) < n
                            && crate::linker::pattern_marks(p@, mv, stack@[k] as int) by {
                            let j = choose|j: int|
                                0 <= j < ri && crate::linker::mark_target(
                                    mv,
                                    #[trigger] targets[j],
                                ) == Option::Some(stack@[k] as int);
                            assert(crate::linker::pattern_marks(p@, mv, stack@[k] as int));
                        }
                    }
                },
                MatchOperation::Pop => {},
                MatchOperation::NoOp => {},
            }
        },
        Pattern::Include(r) => {
            match r {
                ContextReference::Named(s) => {
                    match mark_lookup(m, s.as_str(), n) {
                        Option::Some(b) => {
                            stack.push(b);
                            proof {
                                assert(stack@[stack@.len() - 1] == b);
                            }
                        },
                        Option::None => {},
                    }
                },
                _ => {},
            }
        },
    }
}

/// Pushes onto `stack` every target that context `id` contributes to the
/// closure, pattern by pattern.
#[verifier::rlimit(100)]
fn visit_node(id: usize, contexts: &Vec<Context>, m: &Vec<(String, ContextId)>, n: usize, stack:
    &mut Vec<usize>)
    requires
        id < contexts@.len(),
        n == contexts@.len(),
        forall|j: int|
            0 <= j < ctx_map_view(m@).len() ==> 0 <= (#[trigger] ctx_map_view(m@)[j]).1 < n,
    ensures
        final(stack)@.len() >= old(stack)@.len(),
        forall|k: int| 0 <= k < old(stack)@.len() ==> final(stack)@[k] == old(stack)@[k],
        forall|k: int|
            old(stack)@.len() <= k < final(stack)@.len() ==> (#[trigger] final(stack)@[k]) < n
                && ctx_marks(
                ctxs_view(contexts@)[id as int],
                ctx_map_view(m@),
                final(stack)@[k] as int,
            ),
        forall|b: int|
            #[trigger] ctx_marks(ctxs_view(contexts@)[id as int], ctx_map_view(m@), b) ==> 0 <= b
                < n && exists|k: int|
                old(stack)@.len() <= k < final(stack)@.len() && final(stack)@[k] == b,
{
    let ghost ctxs = ctxs_view(contexts@);
    let ghost mv = ctx_map_view(m@);
    let ghost c = ctxs[id as int];
    let ghost len0 = old(stack)@.len() as int;
    let npat = contexts[id].patterns.len();
    proof {
        assert(c =~= contexts@[id as int]@);
        assert(c.patterns.len() == npat);
    }
    let mut pi: usize = 0;
    while pi < npat
        invariant
            ctxs == ctxs_view(contexts@),
            mv == ctx_map_view(m@),
            n == contexts@.len(),
            id < n,
            c == ctxs[id as int],
            npat == c.patterns.len(),
            pi <= npat,
            forall|j: int| 0 <= j < mv.len() ==> 0 <= (#[trigger] mv[j]).1 < n,
            len0 == old(stack)@.len(),
            stack@.len() >= len0,
            forall|k: int| 0 <= k < len0 ==> stack@[k] == old(stack)@[k],
            forall|k: int|
                len0 <= k < stack@.len() ==> (#[trigger] stack@[k]) < n
                    && crate::linker::marks_before(c, mv, stack@[k] as int, pi as int),
            forall|b: int|
                #[trigger] crate::linker::marks_before(c, mv, b, pi as int) ==> 0 <= b < n
                    && exists|k: int| len0 <= k < stack@.len() && stack@[k] == b,
        decreases npat - pi,
    {
        let ghost stack0 = stack@;
        proof {
            assert(c.patterns[pi as int] == contexts@[id as int].patterns@[pi as int]@);
        }
        push_pattern_targets(&contexts[id].patterns[pi], m, n, stack);
        proof {
            let pv = c.patterns[pi as int];
            assert forall|k: int|
                len0 <= k < stack@.len() implies (#[trigger] stack@[k]) < n
                && crate::linker::marks_before(c, mv, stack@[k] as int, pi + 1) by {
                if k < stack0.len() {
                    assert(stack@[k] == stack0[k]);
                    assert(crate::linker::marks_before(c, mv, stack@[k] as int, pi as int));
                    let q = choose|q: int|
                        0 <= q < pi && crate::linker::pattern_marks(
                            #[trigger] c.patterns[q],
                            mv,
                            stack@[k] as int,
                        );
                    assert(crate::linker::marks_before(c, mv, stack@[k] as int, pi + 1));
                } else {
                    assert(crate::linker::pattern_marks(pv, mv, stack@[k] as int));
                    assert(crate::linker::marks_before(c, mv, stack@[k] as int, pi + 1));
                }
            }
            assert forall|b: int|
                #[trigger] crate::linker::marks_before(c, mv, b, pi + 1) implies 0 <= b < n
                && exists|k: int| len0 <= k < stack@.len() && stack@[k] == b by {
                let q = choose|q: int|
                    0 <= q < pi + 1 && crate::linker::pattern_marks(
                        #[trigger] c.patterns[q],
                        mv,
                        b,
                    );
                if q < pi {
                    assert(crate::linker::marks_before(c, mv, b, pi as int));
                    let k = choose|k: int| len0 <= k < stack0.len() && stack0[k] == b;
                    assert(stack@[k] == b);
                } else {
                    assert(crate::linker::pattern_marks(pv, mv, b));
                }
            }
        }
        pi = pi + 1;
    }
    proof {
        assert forall|k: int|
            len0 <= k < stack@.len() implies (#[trigger] stack@[k]) < n && ctx_marks(
            c,
            mv,
            stack@[k] as int,
        ) by {
            assert(crate::linker::marks_before(c, mv, stack@[k] as int, npat as int));
            let q = choose|q: int|
                0 <= q < npat && crate::linker::pattern_marks(
                    #[trigger] c.patterns[q],
                    mv,
                    stack@[k] as int,
                );
        }
        assert forall|b: int| #[trigger] ctx_marks(c, mv, b) implies 0 <= b < n && exists|k: int|
            len0 <= k < stack@.len() && stack@[k] == b by {
            let q = choose|q: int|
                0 <= q < c.patterns.len() && crate::linker::pattern_marks(
                    #[trigger] c.patterns[q],
                    mv,
                    b,
                );
            assert(crate::linker::marks_before(c, mv, b, npat as int));
        }
    }
}

/// Marks everything recursively reachable from `start` through local
/// `Push`/`SetContexts` targets and `Include`s of named contexts: anything
/// the prototype pulls in must not itself include the prototype.
#[verifier::rlimit(100)]
fn mark_no_prototype(start: usize, contexts: &Vec<Context>, m: &Vec<(String, ContextId)>) -> (res:
    Vec<bool>)
    requires
        start < contexts@.len(),
        forall|j: int|
            0 <= j < ctx_map_view(m@).len() ==> 0 <= (#[trigger] ctx_map_view(m@)[j]).1
                < contexts@.len(),
    ensures
        res@.len() == contexts@.len(),
        forall|t: int|
            0 <= t < res@.len() ==> res@[t] == reachable(
                ctxs_view(contexts@),
                ctx_map_view(m@),
                start as int,
                t,
            ),
{
    let ghost ctxs = ctxs_view(contexts@);
    let ghost mv = ctx_map_view(m@);
    let n = contexts.len();
    let mut visited: Vec<bool> = vec![false; n];
    let mut stack: Vec<usize> = Vec::new();
    stack.push(start);
    proof {
        crate::linker::lemma_reachable_refl(ctxs, mv, start as int);
        assert(stack@[0] == start);
    }
    while stack.len() > 0
        invariant
            ctxs == ctxs_view(contexts@),
            mv == ctx_map_view(m@),
            n == contexts@.len(),
            n == ctxs.len(),
            visited@.len() == n,
            start < n,
            forall|j: int| 0 <= j < mv.len() ==> 0 <= (#[trigger] mv[j]).1 < n,
            forall|t: int|
                0 <= t < n && #[trigger] visited@[t] ==> reachable(ctxs, mv, start as int, t),
            forall|k: int|
                0 <= k < stack@.len() ==> (#[trigger] stack@[k]) < n && reachable(
                    ctxs,
                    mv,
                    start as int,
                    stack@[k] as int,
                ),
            visited@[start as int] || exists|k: int|
                0 <= k < stack@.len() && stack@[k] == start,
            forall|a: int, b: int|
                0 <= a < n && visited@[a] && #[trigger] ctx_marks(ctxs[a], mv, b) && 0 <= b < n
                    ==> visited@[b] || exists|k: int| 0 <= k < stack@.len() && stack@[k] == b,
        decreases crate::linker::count_false(visited@), stack.len(),
    {
        let ghost visited0 = visited@;
        let ghost stack_bp = stack@;
        let id = match stack.pop() {
            Option::Some(id) => id,
            Option::None => {
                proof {
                    assert(false);
                }
                unreached()
            },
        };
        proof {
            assert(id == stack_bp[stack_bp.len() - 1]);
            assert(forall|k: int| 0 <= k < stack@.len() ==> stack@[k] == stack_bp[k]);
        }
        if !visited[id] {
            visited.set(id, true);
            proof {
                crate::linker::lemma_count_false_update(visited0, id as int);
                assert(visited@[id as int]);
                assert(reachable(ctxs, mv, start as int, id as int));
            }
            let ghost stack0 = stack@;
            visit_node(id, contexts, m, n, &mut stack);
            proof {
                assert forall|k: int|
                    0 <= k < stack@.len() implies (#[trigger] stack@[k]) < n && reachable(
                    ctxs,
                    mv,
                    start as int,
                    stack@[k] as int,
                ) by {
                    if k < stack0.len() {
                        assert(stack@[k] == stack0[k]);
                    } else {
                        assert(ctx_marks(ctxs[id as int], mv, stack@[k] as int));
                        crate::linker::lemma_reachable_step(
                            ctxs,
                            mv,
                            start as int,
                            id as int,
                            stack@[k] as int,
                        );
                    }
                }
                assert(visited@[start as int] || exists|k: int|
                    0 <= k < stack@.len() && stack@[k] == start) by {
                    if !visited@[start as int] {
                        let k = choose|k: int| 0 <= k < stack_bp.len() && stack_bp[k] == start;
                        assert(k < stack_bp.len() - 1);
                        assert(stack@[k] == stack0[k]);
                    }
                }
                assert forall|a: int, b: int|
                    0 <= a < n && visited@[a] && #[trigger] ctx_marks(ctxs[a], mv, b) && 0 <= b
                        < n implies visited@[b] || exists|k: int|
                    0 <= k < stack@.len() && stack@[k] == b by {
                    if a == id {
                        let k = choose|k: int|
                            stack0.len() <= k < stack@.len() && stack@[k] == b;
                    } else {
                        assert(visited0[a]);
                        if !visited0[b] {
                            assert(!visited@[b] ==> b != id);
                            if !visited@[b] {
                                let k = choose|k: int|
                                    0 <= k < stack_bp.len() && stack_bp[k] == b;
                                assert(k < stack_bp.len() - 1);
                                assert(stack@[k] == stack0[k]);
                            }
                        }
                    }
                }
            }
        } else {
            proof {
                assert(visited@ == visited0);
                assert(visited@[start as int] || exists|k: int|
                    0 <= k < stack@.len() && stack@[k] == start) by {
                    if !visited@[start as int] {
                        let k = choose|k: int| 0 <= k < stack_bp.len() && stack_bp[k] == start;
                        assert(k < stack_bp.len() - 1);
                    }
                }
                assert forall|a: int, b: int|
                    0 <= a < n && visited@[a] && #[trigger] ctx_marks(ctxs[a], mv, b) && 0 <= b
                        < n implies visited@[b] || exists|k: int|
                    0 <= k < stack@.len() && stack@[k] == b by {
                    if !visited@[b] {
                        let k = choose|k: int| 0 <= k < stack_bp.len() && stack_bp[k] == b;
                        assert(b != id);
                        assert(k < stack_bp.len() - 1);
                    }
                }
            }
        }
    }
    proof {
        let s = Set::new(|t: int| 0 <= t < n && visited@[t]);
        assert forall|t: int| 0 <= t < visited@.len() implies visited@[t] == reachable(
            ctxs,
            mv,
            start as int,
            t,
        ) by {
            if visited@[t] {
            } else {
                if reachable(ctxs, mv, start as int, t) {
                    assert(s.contains(start as int));
                    assert(forall|a: int, b: int|
                        s.contains(a) && 0 <= a < ctxs.len() && #[trigger] ctx_marks(
                            ctxs[a],
                            mv,
                            b,
                        ) && 0 <= b < ctxs.len() ==> s.contains(b));
                    crate::linker::lemma_reachable_in_closed(ctxs, mv, start as int, t, s);
                    assert(false);
                }
            }
        }
    }
    visited
}


/// Rewrites every reference of every pattern of one context.
fn link_context(context: &mut Context, syn: &SyntaxReference, syntaxes: &Vec<SyntaxReference>)
    ensures
        final(context)@ == (ContextV {
            patterns: old(context)@.patterns.map_values(
                |p: PatternV| link_pat(p, syn@, refs_view(syntaxes@)),
            ),
            ..old(context)@
        }),
{
    let ghost syns = refs_view(syntaxes@);
    let ghost pats0 = seq_view(old(context).patterns@);
    let mut i: usize = 0;
    while i < context.patterns.len()
        invariant
            i <= context.patterns@.len(),
            context.patterns@.len() == pats0.len(),
            scopes_view(context.meta_scope@) == old(context)@.meta_scope,
            context.meta_include_prototype == old(context)@.meta_include_prototype,
            opt_id_view(context.prototype) == old(context)@.prototype,
            forall|j: int|
                0 <= j < i ==> (#[trigger] context.patterns@[j])@ == link_pat(
                    pats0[j],
                    syn@,
                    syns,
                ),
            forall|j: int|
                i <= j < context.patterns@.len() ==> (#[trigger] context.patterns@[j])@
                    == pats0[j],
            syns == refs_view(syntaxes@),
        decreases context.patterns@.len() - i,
    {
        let mut p = context.patterns.remove(i);
        match &mut p {
            Pattern::Match(mp) => link_match_pat(mp, syn, syntaxes),
            Pattern::Include(r) => link_ref(r, syn, syntaxes),
        }
        context.patterns.insert(i, p);
        i = i + 1;
    }
    proof {
        assert(seq_view(context.patterns@) =~= pats0.map_values(
            |p: PatternV| link_pat(p, syn@, syns),
        ));
    }
}

// ---------------------------------------------------------------------------
// the builder
// ---------------------------------------------------------------------------
/// Accumulates unlinked `SyntaxDefinition`s; `build` links them into a
/// `SyntaxSet`.
pub struct SyntaxSetBuilder {
    pub syntaxes: Vec<SyntaxDefinition>,
    pub path_syntaxes: Vec<(String, usize)>,
}

impl View for SyntaxSetBuilder {
    type V = BuilderV;

    open spec fn view(&self) -> BuilderV {
        BuilderV {
            syntaxes: defs_view(self.syntaxes@),
            path_syntaxes: paths_view(self.path_syntaxes@),
        }
    }
}

impl Clone for SyntaxSetBuilder {
    fn clone(&self) -> (res: SyntaxSetBuilder)
        ensures
            res@ == self@,
    {
        let mut syntaxes: Vec<SyntaxDefinition> = Vec::new();
        let mut i: usize = 0;
        while i < self.syntaxes.len()
            invariant
                i <= self.syntaxes.len(),
                syntaxes@.len() == i,
                forall|j: int| 0 <= j < i ==> syntaxes@[j]@ == self.syntaxes@[j]@,
            decreases self.syntaxes.len() - i,
        {
            syntaxes.push(self.syntaxes[i].clone());
            i = i + 1;
        }
        let mut path_syntaxes: Vec<(String, usize)> = Vec::new();
        let mut k: usize = 0;
        while k < self.path_syntaxes.len()
            invariant
                k <= self.path_syntaxes.len(),
                path_syntaxes@.len() == k,
                forall|j: int|
                    0 <= j < k ==> path_syntaxes@[j].0@ == self.path_syntaxes@[j].0@
                        && path_syntaxes@[j].1 == self.path_syntaxes@[j].1,
            decreases self.path_syntaxes.len() - k,
        {
            let p = self.path_syntaxes[k].0.clone();
            let idx = self.path_syntaxes[k].1;
            path_syntaxes.push((p, idx));
            k = k + 1;
        }
        let res = SyntaxSetBuilder { syntaxes, path_syntaxes };
        proof {
            assert(res@.syntaxes =~= self@.syntaxes);
            assert(res@.path_syntaxes =~= self@.path_syntaxes);
            assert(res@ =~= self@);
        }
        res
    }
}

/// Phase one of `build`: assign flat ids definition by definition, each
/// definition's contexts sorted by name.
fn assign_syntaxes(defs_vec: Vec<SyntaxDefinition>) -> (res: (Vec<SyntaxReference>, Vec<Context>))
    ensures
        refs_view(res.0@) == assign_refs(defs_view(defs_vec@), 0),
        ctxs_view(res.1@) == assign_ctxs(defs_view(defs_vec@)),
        res.1@.len() == crate::linker::total_ctxs(defs_view(defs_vec@)),
{
    let ghost defs = defs_view(defs_vec@);
    let mut syntaxes: Vec<SyntaxReference> = Vec::new();
    let mut all_contexts: Vec<Context> = Vec::new();
    let mut rest = defs_vec;
    proof {
        assert(defs_view(rest@) =~= defs.skip(0));
        assert(defs.take(0) =~= Seq::<SynDefV>::empty());
        assert(refs_view(syntaxes@) =~= assign_refs(defs.take(0), 0));
        assert(ctxs_view(all_contexts@) =~= assign_ctxs(defs.take(0)));
    }
    while rest.len() > 0
        invariant
            rest@.len() <= defs.len(),
            defs_view(rest@) =~= defs.skip(defs.len() - rest@.len()),
            refs_view(syntaxes@) == assign_refs(defs.take(defs.len() - rest@.len()), 0),
            ctxs_view(all_contexts@) == assign_ctxs(defs.take(defs.len() - rest@.len())),
            all_contexts@.len() == crate::linker::total_ctxs(defs.take(defs.len() - rest@.len())),
        decreases rest.len(),
    {
        let ghost i = defs.len() - rest@.len();
        let ghost restv0 = rest@;
        let d = rest.remove(0);
        proof {
            assert(defs_view(restv0)[0] == defs.skip(i)[0]);
            assert(d@ == defs[i]);
            assert forall|t: int| 0 <= t < rest@.len() implies defs_view(rest@)[t] == defs.skip(
                i + 1,
            )[t] by {
                assert(rest@[t] == restv0[t + 1]);
                assert(defs_view(restv0)[t + 1] == defs.skip(i)[t + 1]);
            }
            assert(defs_view(rest@) =~= defs.skip(i + 1));
        }
        let SyntaxDefinition {
            name,
            file_extensions,
            scope,
            first_line_match,
            hidden,
            variables,
            contexts,
        } = d;
        let sorted = sort_contexts(contexts);
        let ghost sortedv = named_ctxs_view(sorted@);
        let ghost base = all_contexts@.len() as int;
        let ghost acc0 = ctxs_view(all_contexts@);
        proof {
            assert(sortedv == sort_named_ctxs(defs[i].contexts));
            crate::linker::lemma_sort_len(defs[i].contexts);
        }
        let mut map: Vec<(String, ContextId)> = Vec::new();
        let mut srest = sorted;
        proof {
            assert(named_ctxs_view(srest@) =~= sortedv.skip(0));
            assert(ctx_map_view(map@) =~= Seq::new(0nat, |t: int| (sortedv[t].0, base + t)));
            assert(sortedv.take(0) =~= Seq::<(Seq<char>, ContextV)>::empty());
            assert(ctxs_view(all_contexts@) =~= acc0 + sortedv.take(0).map_values(
                |p: (Seq<char>, ContextV)| p.1,
            ));
        }
        while srest.len() > 0
            invariant
                srest@.len() <= sortedv.len(),
                base == acc0.len(),
                named_ctxs_view(srest@) =~= sortedv.skip(sortedv.len() - srest@.len()),
                ctx_map_view(map@) =~= Seq::new(
                    (sortedv.len() - srest@.len()) as nat,
                    |t: int| (sortedv[t].0, base + t),
                ),
                ctxs_view(all_contexts@) == acc0 + sortedv.take(
                    sortedv.len() - srest@.len(),
                ).map_values(|p: (Seq<char>, ContextV)| p.1),
                all_contexts@.len() == base + (sortedv.len() - srest@.len()),
            decreases srest.len(),
        {
            let ghost j = sortedv.len() - srest@.len();
            let ghost srestv0 = srest@;
            let pair = srest.remove(0);
            proof {
                assert(named_ctxs_view(srestv0)[0] == sortedv.skip(j)[0]);
                assert((pair.0@, pair.1@) == sortedv[j]);
                assert forall|t: int|
                    0 <= t < srest@.len() implies named_ctxs_view(srest@)[t] == sortedv.skip(
                    j + 1,
                )[t] by {
                    assert(srest@[t] == srestv0[t + 1]);
                    assert(named_ctxs_view(srestv0)[t + 1] == sortedv.skip(j)[t + 1]);
                }
                assert(named_ctxs_view(srest@) =~= sortedv.skip(j + 1));
            }
            let id = ContextId::new(all_contexts.len());
            let ghost map0 = map@;
            let ghost table0 = all_contexts@;
            let (cname, cbody) = pair;
            let ghost pairv = (cname@, cbody@);
            map.push((cname, id));
            all_contexts.push(cbody);
            proof {
                assert(ctx_map_view(map0).len() == map0.len());
                assert(map0.len() == j);
                assert(table0.len() == base + j);
                assert forall|t: int| 0 <= t < j + 1 implies ctx_map_view(map@)[t] == (
                    sortedv[t].0,
                    base + t,
                ) by {
                    if t < j {
                        assert(map@[t] == map0[t]);
                        assert(ctx_map_view(map0)[t] == (sortedv[t].0, base + t));
                    } else {
                        assert(map@[t].0@ == pairv.0);
                        assert(map@[t].1@ == base + j);
                    }
                }
                assert(ctx_map_view(map@) =~= Seq::new(
                    (j + 1) as nat,
                    |t: int| (sortedv[t].0, base + t),
                ));
                assert(sortedv.take(j + 1) =~= sortedv.take(j).push(sortedv[j]));
                assert forall|t: int|
                    0 <= t < base + j + 1 implies ctxs_view(all_contexts@)[t] == (acc0
                    + sortedv.take(j + 1).map_values(|p: (Seq<char>, ContextV)| p.1))[t] by {
                    if t < base + j {
                        assert(all_contexts@[t] == table0[t]);
                        assert(ctxs_view(table0)[t] == (acc0 + sortedv.take(j).map_values(
                            |p: (Seq<char>, ContextV)| p.1,
                        ))[t]);
                    } else {
                        assert(all_contexts@[t]@ == pairv.1);
                        assert(sortedv.take(j + 1).map_values(|p: (Seq<char>, ContextV)| p.1)[
                            j] == sortedv[j].1);
                    }
                }
                assert(ctxs_view(all_contexts@) =~= acc0 + sortedv.take(j + 1).map_values(
                    |p: (Seq<char>, ContextV)| p.1,
                ));
            }
        }
        let syntax = SyntaxReference {
            name,
            file_extensions,
            scope,
            first_line_match,
            hidden,
            variables,
            contexts: map,
        };
        proof {
            assert(syntax@ =~= crate::linker::def_to_ref(defs[i], base));
            assert(defs.take(i + 1) =~= defs.take(i).push(defs[i]));
            crate::linker::lemma_assign_refs_snoc(defs.take(i), defs[i], 0);
            crate::linker::lemma_assign_ctxs_snoc(defs.take(i), defs[i]);
            crate::linker::lemma_total_ctxs_snoc(defs.take(i), defs[i]);
            assert(sortedv.take(sortedv.len() as int) =~= sortedv);
        }
        syntaxes.push(syntax);
        proof {
            assert(refs_view(syntaxes@) =~= assign_refs(defs.take(i), 0).push(
                crate::linker::def_to_ref(defs[i], base),
            ));
        }
    }
    proof {
        assert(defs.take(defs.len() - rest@.len()) =~= defs);
    }
    (syntaxes, all_contexts)
}

/// Phase two of `build`: for every syntax with a `prototype` context, the
/// set of context ids its prototype transitively pulls in.
fn compute_no_protos(syntaxes: &Vec<SyntaxReference>, all_contexts: &Vec<Context>) -> (res: Vec<
    Option<(ContextId, Vec<bool>)>,
>)
    requires
        forall|i: int, j: int|
            0 <= i < refs_view(syntaxes@).len() && 0 <= j < (#[trigger] refs_view(
                syntaxes@,
            )[i]).contexts.len() ==> 0 <= (#[trigger] refs_view(syntaxes@)[i].contexts[j]).1
                < all_contexts@.len(),
    ensures
        res@.len() == syntaxes@.len(),
        forall|i: int|
            0 <= i < res@.len() ==> match map_lookup(
                refs_view(syntaxes@)[i].contexts,
                "prototype"@,
            ) {
                Option::Some(pr) => (#[trigger] res@[i]) is Some && res@[i].unwrap().0@ == pr
                    && res@[i].unwrap().1@.len() == all_contexts@.len() && forall|t: int|
                    0 <= t < all_contexts@.len() ==> res@[i].unwrap().1@[t] == reachable(
                        ctxs_view(all_contexts@),
                        refs_view(syntaxes@)[i].contexts,
                        pr,
                        t,
                    ),
                Option::None => res@[i] is None,
            },
{
    let ghost refs = refs_view(syntaxes@);
    let mut res: Vec<Option<(ContextId, Vec<bool>)>> = Vec::new();
    let mut si: usize = 0;
    while si < syntaxes.len()
        invariant
            si <= syntaxes.len(),
            refs == refs_view(syntaxes@),
            refs.len() == syntaxes.len(),
            res@.len() == si,
            forall|i: int, j: int|
                0 <= i < refs.len() && 0 <= j < (#[trigger] refs[i]).contexts.len() ==> 0 <= (
                #[trigger] refs[i].contexts[j]).1 < all_contexts@.len(),
            forall|i: int|
                0 <= i < si ==> match map_lookup(refs[i].contexts, "prototype"@) {
                    Option::Some(pr) => (#[trigger] res@[i]) is Some && res@[i].unwrap().0@ == pr
                        && res@[i].unwrap().1@.len() == all_contexts@.len() && forall|t: int|
                        0 <= t < all_contexts@.len() ==> res@[i].unwrap().1@[t] == reachable(
                            ctxs_view(all_contexts@),
                            refs[i].contexts,
                            pr,
                            t,
                        ),
                    Option::None => res@[i] is None,
                },
        decreases syntaxes.len() - si,
    {
        proof {
            assert(refs[si as int] == syntaxes@[si as int]@);
        }
        match find_in_ctx_map(&syntaxes[si].contexts, "prototype") {
            Option::Some(pid) => {
                proof {
                    crate::linker::lemma_map_lookup_in(refs[si as int].contexts, "prototype"@);
                }
                let visited = mark_no_prototype(pid.index(), all_contexts, &syntaxes[si].contexts);
                res.push(Option::Some((pid, visited)));
            },
            Option::None => {
                res.push(Option::None);
            },
        }
        si = si + 1;
    }
    res
}

/// Phase three of `build`: attach prototypes and link every context, in
/// flat-id order.
#[verifier::rlimit(100)]
fn link_phase(
    syntaxes: &Vec<SyntaxReference>,
    all_contexts: &mut Vec<Context>,
    no_protos: &Vec<Option<(ContextId, Vec<bool>)>>,
    Ghost(defs): Ghost<Seq<SynDefV>>,
)
    requires
        refs_view(syntaxes@) == assign_refs(defs, 0),
        ctxs_view(old(all_contexts)@) == assign_ctxs(defs),
        old(all_contexts)@.len() == crate::linker::total_ctxs(defs),
        no_protos@.len() == syntaxes@.len(),
        forall|i: int|
            0 <= i < no_protos@.len() ==> match map_lookup(
                refs_view(syntaxes@)[i].contexts,
                "prototype"@,
            ) {
                Option::Some(pr) => (#[trigger] no_protos@[i]) is Some
                    && no_protos@[i].unwrap().0@ == pr && no_protos@[i].unwrap().1@.len() == old(
                    all_contexts,
                )@.len() && forall|t: int|
                    0 <= t < old(all_contexts)@.len() ==> no_protos@[i].unwrap().1@[t]
                        == reachable(
                        ctxs_view(old(all_contexts)@),
                        refs_view(syntaxes@)[i].contexts,
                        pr,
                        t,
                    ),
                Option::None => no_protos@[i] is None,
            },
    ensures
        ctxs_view(final(all_contexts)@) == crate::linker::build_ctxs(defs),
{
    let ghost refs = refs_view(syntaxes@);
    let ghost pre = ctxs_view(old(all_contexts)@);
    let ghost total = crate::linker::total_ctxs(defs);
    proof {
        crate::linker::lemma_assign_refs_struct(defs, 0);
        crate::linker::lemma_assign_ctxs_len(defs);
        assert(defs.take(0) =~= Seq::<SynDefV>::empty());
    }
    let mut si: usize = 0;
    while si < syntaxes.len()
        invariant
            si <= syntaxes.len(),
            refs == refs_view(syntaxes@),
            pre == ctxs_view(old(all_contexts)@),
            total == crate::linker::total_ctxs(defs),
            refs == assign_refs(defs, 0),
            pre == assign_ctxs(defs),
            pre.len() == total,
            refs.len() == defs.len(),
            refs.len() == syntaxes.len(),
            no_protos@.len() == syntaxes@.len(),
            forall|i: int|
                0 <= i < defs.len() ==> assign_refs(defs, 0)[i] == crate::linker::def_to_ref(
                    defs[i],
                    crate::linker::total_ctxs(defs.take(i)),
                ),
            forall|i: int|
                0 <= i < no_protos@.len() ==> match map_lookup(refs[i].contexts, "prototype"@) {
                    Option::Some(pr) => (#[trigger] no_protos@[i]) is Some
                        && no_protos@[i].unwrap().0@ == pr && no_protos@[i].unwrap().1@.len()
                        == total && forall|t: int|
                        0 <= t < total ==> no_protos@[i].unwrap().1@[t] == reachable(
                            pre,
                            refs[i].contexts,
                            pr,
                            t,
                        ),
                    Option::None => no_protos@[i] is None,
                },
            all_contexts@.len() == total,
            ctxs_view(all_contexts@) == Seq::new(
                pre.len(),
                |k: int|
                    if k < crate::linker::total_ctxs(defs.take(si as int)) {
                        crate::linker::linked_ctx(
                            pre,
                            refs[crate::linker::owner_idx(defs, k)],
                            refs,
                            k,
                        )
                    } else {
                        pre[k]
                    },
            ),
        decreases syntaxes.len() - si,
    {
        let ghost base = crate::linker::total_ctxs(defs.take(si as int));
        let nctx = syntaxes[si].contexts.len();
        proof {
            assert(refs[si as int] == syntaxes@[si as int]@);
            crate::linker::lemma_sort_len(defs[si as int].contexts);
            assert(refs[si as int].contexts.len() == defs[si as int].contexts.len());
            assert(nctx == defs[si as int].contexts.len());
        }
        let mut j: usize = 0;
        while j < nctx
            invariant
                si < syntaxes.len(),
                j <= nctx,
                refs == refs_view(syntaxes@),
                pre == ctxs_view(old(all_contexts)@),
                total == crate::linker::total_ctxs(defs),
                refs == assign_refs(defs, 0),
                pre == assign_ctxs(defs),
                pre.len() == total,
                refs.len() == defs.len(),
                refs.len() == syntaxes.len(),
                no_protos@.len() == syntaxes@.len(),
                base == crate::linker::total_ctxs(defs.take(si as int)),
                nctx == defs[si as int].contexts.len(),
                nctx == refs[si as int].contexts.len(),
                forall|i: int|
                    0 <= i < defs.len() ==> assign_refs(defs, 0)[i] == crate::linker::def_to_ref(
                        defs[i],
                        crate::linker::total_ctxs(defs.take(i)),
                    ),
                forall|i: int|
                    0 <= i < no_protos@.len() ==> match map_lookup(
                        refs[i].contexts,
                        "prototype"@,
                    ) {
                        Option::Some(pr) => (#[trigger] no_protos@[i]) is Some
                            && no_protos@[i].unwrap().0@ == pr && no_protos@[i].unwrap().1@.len()
                            == total && forall|t: int|
                            0 <= t < total ==> no_protos@[i].unwrap().1@[t] == reachable(
                                pre,
                                refs[i].contexts,
                                pr,
                                t,
                            ),
                        Option::None => no_protos@[i] is None,
                    },
                all_contexts@.len() == total,
                ctxs_view(all_contexts@) == Seq::new(
                    pre.len(),
                    |k: int|
                        if k < base + j {
                            crate::linker::linked_ctx(
                                pre,
                                refs[crate::linker::owner_idx(defs, k)],
                                refs,
                                k,
                            )
                        } else {
                            pre[k]
                        },
                ),
            decreases nctx - j,
        {
            proof {
                crate::linker::lemma_owner_idx_at(defs, si as int, j as int);
                assert(refs[si as int] == crate::linker::def_to_ref(defs[si as int], base));
                assert(refs[si as int].contexts[j as int].1 == base + j);
                assert(refs[si as int].contexts[j as int] == ctx_map_view(
                    syntaxes@[si as int].contexts@,
                )[j as int]);
            }
            let id = syntaxes[si].contexts[j].1.index();
            proof {
                assert(id == base + j);
                assert(id < total);
            }
            let ghost table0 = all_contexts@;
            let mut ctx = all_contexts.remove(id);
            proof {
                assert(ctx@ == ctxs_view(table0)[id as int]);
                assert(ctx@ == pre[id as int]);
            }
            match &no_protos[si] {
                Option::Some(pv) => {
                    if ctx.meta_include_prototype && !pv.1[id] {
                        ctx.prototype = Option::Some(pv.0.clone());
                    }
                },
                Option::None => {},
            }
            proof {
                assert(ctx@ == (ContextV {
                    prototype: match map_lookup(refs[si as int].contexts, "prototype"@) {
                        Option::Some(pr) => if pre[id as int].meta_include_prototype && !reachable(
                            pre,
                            refs[si as int].contexts,
                            pr,
                            id as int,
                        ) {
                            Option::Some(pr)
                        } else {
                            pre[id as int].prototype
                        },
                        Option::None => pre[id as int].prototype,
                    },
                    ..pre[id as int]
                }));
            }
            link_context(&mut ctx, &syntaxes[si], syntaxes);
            proof {
                assert(ctx@ =~= crate::linker::linked_ctx(pre, refs[si as int], refs, id as int));
            }
            let ghost ctxv = ctx@;
            all_contexts.insert(id, ctx);
            proof {
                assert(crate::linker::owner_idx(defs, id as int) == si);
                let after_rm = table0.remove(id as int);
                table0.remove_ensures(id as int);
                after_rm.insert_ensures(id as int, ctx);
                assert(all_contexts@ == after_rm.insert(id as int, ctx));
                assert forall|k: int| 0 <= k < total implies ctxs_view(all_contexts@)[k]
                    == Seq::new(
                    pre.len(),
                    |k: int|
                        if k < base + j + 1 {
                            crate::linker::linked_ctx(
                                pre,
                                refs[crate::linker::owner_idx(defs, k)],
                                refs,
                                k,
                            )
                        } else {
                            pre[k]
                        },
                )[k] by {
                    if k < id {
                        assert(all_contexts@[k] == after_rm[k]);
                        assert(after_rm[k] == table0[k]);
                        assert(ctxs_view(table0)[k] == table0[k]@);
                    } else if k == id {
                        assert(all_contexts@[k] == ctx);
                        assert(ctx@ == ctxv);
                    } else {
                        assert(all_contexts@[k] == after_rm[k - 1]);
                        assert(after_rm[k - 1] == table0[k]);
                        assert(ctxs_view(table0)[k] == table0[k]@);
                    }
                }
                assert(ctxs_view(all_contexts@) =~= Seq::new(
                    pre.len(),
                    |k: int|
                        if k < base + j + 1 {
                            crate::linker::linked_ctx(
                                pre,
                                refs[crate::linker::owner_idx(defs, k)],
                                refs,
                                k,
                            )
                        } else {
                            pre[k]
                        },
                ));
            }
            j = j + 1;
        }
        proof {
            crate::linker::lemma_total_ctxs_take_succ(defs, si as int);
        }
        si = si + 1;
    }
    proof {
        assert(defs.take(defs.len() as int) =~= defs);
        crate::linker::lemma_total_ctxs_split(defs, defs.len() as int);
        assert(ctxs_view(all_contexts@) =~= crate::linker::build_ctxs(defs));
    }
}

/// The built-in fallback grammar added by `load_plain_text_syntax`.
pub open spec fn plain_text_def_v() -> SynDefV {
    SynDefV {
        name: "Plain Text"@,
        file_extensions: seq!["txt"@],
        scope: "text.plain"@,
        first_line_match: Option::None,
        hidden: false,
        variables: Seq::empty(),
        contexts: seq![
            (
                "main"@,
                ContextV {
                    meta_scope: Seq::empty(),
                    meta_include_prototype: true,
                    prototype: Option::None,
                    patterns: Seq::empty(),
                },
            ),
        ],
    }
}

impl SyntaxSetBuilder {
    pub fn new() -> (res: SyntaxSetBuilder)
        ensures
            res@.syntaxes == Seq::<SynDefV>::empty(),
            res@.path_syntaxes == Seq::<(Seq<char>, int)>::empty(),
    {
        let res = SyntaxSetBuilder { syntaxes: Vec::new(), path_syntaxes: Vec::new() };
        proof {
            assert(res@.syntaxes =~= Seq::<SynDefV>::empty());
            assert(res@.path_syntaxes =~= Seq::<(Seq<char>, int)>::empty());
        }
        res
    }

    /// Appends a syntax to the set under construction.
    pub fn add_syntax(&mut self, syntax: SyntaxDefinition)
        ensures
            final(self)@.syntaxes =~= old(self)@.syntaxes.push(syntax@),
            final(self)@.path_syntaxes == old(self)@.path_syntaxes,
    {
        self.syntaxes.push(syntax);
    }

    /// Appends a syntax and records the (normalized, forward-slash) path it
    /// was loaded from, for later `find_syntax_by_path` lookups.
    pub fn add_syntax_with_path(&mut self, path: String, syntax: SyntaxDefinition)
        ensures
            final(self)@.syntaxes =~= old(self)@.syntaxes.push(syntax@),
            final(self)@.path_syntaxes =~= old(self)@.path_syntaxes.push(
                (path@, old(self)@.syntaxes.len() as int),
            ),
    {
        let idx = self.syntaxes.len();
        self.path_syntaxes.push((path, idx));
        self.syntaxes.push(syntax);
    }

    /// Links all the accumulated syntaxes into a `SyntaxSet`: flat ids are
    /// assigned (contexts sorted by name per definition), references are
    /// rewritten to `Direct` handles, and prototypes are attached outside
    /// the prototype's own closure. The result is exactly `build_v` of this
    /// builder's contents.
    pub fn build(self) -> (res: SyntaxSet)
        ensures
            res@ == build_v(self@),
            res.first_line_cache.cached_until == 0,
            res.first_line_cache.entries() == Seq::<(Seq<char>, int)>::empty(),
            cache_wf(res.first_line_cache, res@),
    {
        let SyntaxSetBuilder { syntaxes: syntax_definitions, path_syntaxes } = self;
        let ghost defs = defs_view(syntax_definitions@);
        let (syntaxes, mut all_contexts) = assign_syntaxes(syntax_definitions);
        proof {
            crate::linker::lemma_assign_maps_bounds(defs);
            crate::linker::lemma_assign_refs_struct(defs, 0);
        }
        let no_protos = compute_no_protos(&syntaxes, &all_contexts);
        link_phase(&syntaxes, &mut all_contexts, &no_protos, Ghost(defs));
        let res = SyntaxSet {
            syntaxes,
            contexts: all_contexts,
            path_syntaxes,
            first_line_cache: FirstLineCache::new(),
        };
        proof {
            assert(res@.syntaxes =~= build_v(self@).syntaxes);
            assert(res@.contexts =~= build_v(self@).contexts);
            assert(res@.path_syntaxes =~= build_v(self@).path_syntaxes);
            assert(res@ =~= build_v(self@));
            assert(res@.syntaxes.take(0) =~= Seq::<SynRefV>::empty());
            assert(cache_entries(res@.syntaxes.take(0)) =~= Seq::<(Seq<char>, int)>::empty());
        }
        res
    }

    /// Adds a minimal grammar for plain text: name `Plain Text`, extension
    /// `txt`, scope `text.plain`, one empty `main` context.
    pub fn load_plain_text_syntax(&mut self)
        ensures
            final(self)@.syntaxes =~= old(self)@.syntaxes.push(plain_text_def_v()),
            final(self)@.path_syntaxes == old(self)@.path_syntaxes,
    {
        let mut file_extensions: Vec<String> = Vec::new();
        file_extensions.push("txt".to_owned());
        let mut contexts: Vec<(String, Context)> = Vec::new();
        contexts.push(("main".to_owned(), Context::new()));
        let def = SyntaxDefinition {
            name: "Plain Text".to_owned(),
            file_extensions,
            scope: Scope::new("text.plain"),
            first_line_match: Option::None,
            hidden: false,
            variables: Vec::new(),
            contexts,
        };
        proof {
            assert(strs_view(def.file_extensions@) =~= seq!["txt"@]);
            assert(vars_view(def.variables@) =~= Seq::<(Seq<char>, Seq<char>)>::empty());
            assert(named_ctxs_view(def.contexts@) =~= plain_text_def_v().contexts);
            assert(def@ =~= plain_text_def_v());
        }
        self.syntaxes.push(def);
    }
}

} // verus!
