//! The library-wide guarantees, stated and proved over the `build_v` model:
//! validity of every handle a build produces, determinism of building,
//! stability of the lookup surface across the builder round trip, the
//! prototype-attachment rule, and the shape of the path and token lookups.

use vstd::prelude::*;

use crate::linker::{
    assign_ctxs, assign_refs, build_v, first_by_name, first_by_scope, lemma_assign_ctxs_at,
    lemma_assign_ctxs_len, lemma_assign_maps_bounds, lemma_assign_refs_struct,
    lemma_map_lookup_in, lemma_owner_idx_at, lemma_sort_len, lemma_total_ctxs_split, link_pat,
    linked_ctx, map_lookup, owner_idx, reachable, resolve_ref, sort_named_ctxs, total_ctxs,
};
use crate::strutil::ascii_ieq;
use crate::syntax_definition::{ContextV, CtxRefV, MatchOpV, PatternV, SynDefV};
use crate::syntax_set::{
    cache_entries, def_of_ref, first_by_ext, first_by_iname, first_path_match, into_builder_v,
    maps_wf, path_matches, token_lookup, BuilderV, SynRefV, SyntaxSetV,
};

verus! {

// ---------------------------------------------------------------------------
// handle validity (ids index the flat context table)
// ---------------------------------------------------------------------------
pub open spec fn ref_ids_wf(r: CtxRefV, n: int) -> bool {
    match r {
        CtxRefV::Direct { id } => 0 <= id < n,
        _ => true,
    }
}

pub open spec fn op_ids_wf(op: MatchOpV, n: int) -> bool {
    match op {
        MatchOpV::Push { targets } => forall|j: int|
            0 <= j < targets.len() ==> ref_ids_wf(#[trigger] targets[j], n),
        MatchOpV::SetContexts { targets } => forall|j: int|
            0 <= j < targets.len() ==> ref_ids_wf(#[trigger] targets[j], n),
        _ => true,
    }
}

pub open spec fn pat_ids_wf(p: PatternV, n: int) -> bool {
    match p {
        PatternV::Match { p: mp } => op_ids_wf(mp.operation, n) && (match mp.with_prototype {
            Option::Some(r) => ref_ids_wf(r, n),
            Option::None => true,
        }),
        PatternV::Include { r } => ref_ids_wf(r, n),
    }
}

pub open spec fn ctx_ids_wf(c: ContextV, n: int) -> bool {
    (match c.prototype {
        Option::Some(p) => 0 <= p < n,
        Option::None => true,
    }) && forall|i: int| 0 <= i < c.patterns.len() ==> pat_ids_wf(#[trigger] c.patterns[i], n)
}

/// Every `ContextId` reachable from a syntax's context map, from a pattern's
/// `Direct` reference, or from a context's `prototype` field, indexes a
/// valid element of the flat context table.
pub open spec fn set_ids_wf(s: SyntaxSetV) -> bool {
    maps_wf(s) && forall|k: int|
        0 <= k < s.contexts.len() ==> ctx_ids_wf(#[trigger] s.contexts[k], s.contexts.len() as int)
}

// ---------------------------------------------------------------------------
// clean definitions: what a loader hands the builder
// ---------------------------------------------------------------------------
pub open spec fn ref_clean(r: CtxRefV) -> bool {
    !(r is Direct)
}

pub open spec fn op_clean(op: MatchOpV) -> bool {
    match op {
        MatchOpV::Push { targets } => forall|j: int|
            0 <= j < targets.len() ==> ref_clean(#[trigger] targets[j]),
        MatchOpV::SetContexts { targets } => forall|j: int|
            0 <= j < targets.len() ==> ref_clean(#[trigger] targets[j]),
        _ => true,
    }
}

pub open spec fn pat_clean(p: PatternV) -> bool {
    match p {
        PatternV::Match { p: mp } => op_clean(mp.operation) && (match mp.with_prototype {
            Option::Some(r) => ref_clean(r),
            Option::None => true,
        }),
        PatternV::Include { r } => ref_clean(r),
    }
}

/// A context as a loader produces it: no `Direct` references yet and no
/// prototype attached.
pub open spec fn ctx_clean(c: ContextV) -> bool {
    c.prototype is None && forall|i: int|
        0 <= i < c.patterns.len() ==> pat_clean(#[trigger] c.patterns[i])
}

pub open spec fn def_clean(d: SynDefV) -> bool {
    forall|t: int| 0 <= t < d.contexts.len() ==> ctx_clean((#[trigger] d.contexts[t]).1)
}

pub open spec fn builder_clean(b: BuilderV) -> bool {
    forall|i: int| 0 <= i < b.syntaxes.len() ==> def_clean(#[trigger] b.syntaxes[i])
}

// ---------------------------------------------------------------------------
// helper lemmas
// ---------------------------------------------------------------------------
/// Sorting a definition's contexts only rearranges them.
proof fn lemma_insert_sorted_contains(
    s: Seq<(Seq<char>, ContextV)>,
    x: (Seq<char>, ContextV),
    y: (Seq<char>, ContextV),
)
    requires
        crate::linker::insert_sorted(s, x).contains(y),
    ensures
        s.contains(y) || y == x,
    decreases s.len(),
{
    if s.len() > 0 && crate::strutil::lex_le(s[0].0, x.0) {
        let ins = crate::linker::insert_sorted(s, x);
        assert(ins == seq![s[0]] + crate::linker::insert_sorted(s.drop_first(), x));
        let idx = choose|idx: int| 0 <= idx < ins.len() && ins[idx] == y;
        if idx == 0 {
            assert(s[0] == y);
        } else {
            assert(crate::linker::insert_sorted(s.drop_first(), x)[idx - 1] == y);
            lemma_insert_sorted_contains(s.drop_first(), x, y);
            if s.drop_first().contains(y) {
                let t = choose|t: int|
                    0 <= t < s.drop_first().len() && s.drop_first()[t] == y;
                assert(s[t + 1] == y);
            }
        }
    } else {
        let ins = crate::linker::insert_sorted(s, x);
        let idx = choose|idx: int| 0 <= idx < ins.len() && ins[idx] == y;
        if s.len() == 0 {
            assert(y == x);
        } else {
            assert(ins == seq![x] + s);
            if idx == 0 {
            } else {
                assert(s[idx - 1] == y);
            }
        }
    }
}

proof fn lemma_sort_contains(s: Seq<(Seq<char>, ContextV)>, y: (Seq<char>, ContextV))
    requires
        sort_named_ctxs(s).contains(y),
    ensures
        s.contains(y),
    decreases s.len(),
{
    if s.len() > 0 {
        lemma_insert_sorted_contains(sort_named_ctxs(s.drop_last()), s.last(), y);
        if sort_named_ctxs(s.drop_last()).contains(y) {
            lemma_sort_contains(s.drop_last(), y);
            let t = choose|t: int| 0 <= t < s.drop_last().len() && s.drop_last()[t] == y;
            assert(s[t] == y);
        } else {
            assert(s[s.len() - 1] == y);
        }
    }
}

/// Every flat id under the total count falls inside exactly one syntax's
/// block.
pub proof fn lemma_owner_block(defs: Seq<SynDefV>, k: int)
    requires
        0 <= k < total_ctxs(defs),
    ensures
        0 <= owner_idx(defs, k) < defs.len(),
        0 <= k - total_ctxs(defs.take(owner_idx(defs, k))) < defs[owner_idx(defs, k)].contexts.len(),
    decreases defs.len(),
{
    lemma_total_ctxs_split(defs, if defs.len() > 0 {
        1int
    } else {
        0int
    });
    if defs.len() > 0 {
        if k < defs[0].contexts.len() {
            assert(defs.take(0) =~= Seq::<SynDefV>::empty());
        } else {
            assert(defs.skip(1) =~= defs.drop_first());
            assert(defs.take(1) =~= seq![defs[0]]);
            assert(total_ctxs(seq![defs[0]]) == defs[0].contexts.len() + total_ctxs(
                seq![defs[0]].drop_first(),
            ));
            assert(seq![defs[0]].drop_first() =~= Seq::<SynDefV>::empty());
            lemma_owner_block(defs.drop_first(), k - defs[0].contexts.len());
            let o = owner_idx(defs.drop_first(), k - defs[0].contexts.len());
            assert(owner_idx(defs, k) == 1 + o);
            assert(defs.take(1 + o).drop_first() =~= defs.drop_first().take(o));
            assert(total_ctxs(defs.take(1 + o)) == defs.take(1 + o)[0].contexts.len()
                + total_ctxs(defs.take(1 + o).drop_first()));
        }
    }
}

/// A resolved reference points into the table whenever every syntax map does.
proof fn lemma_resolve_ref_wf(r: CtxRefV, syn: SynRefV, syns: Seq<SynRefV>, n: int)
    requires
        ref_clean(r),
        forall|j: int| 0 <= j < syn.contexts.len() ==> 0 <= (#[trigger] syn.contexts[j]).1 < n,
        forall|i: int, j: int|
            0 <= i < syns.len() && 0 <= j < (#[trigger] syns[i]).contexts.len() ==> 0 <= (
            #[trigger] syns[i].contexts[j]).1 < n,
    ensures
        ref_ids_wf(resolve_ref(r, syn, syns), n),
{
    match r {
        CtxRefV::Named { name } => {
            let key = if name == "$top_level_main"@ {
                "main"@
            } else {
                name
            };
            if map_lookup(syn.contexts, key) is Some {
                lemma_map_lookup_in(syn.contexts, key);
            }
        },
        CtxRefV::Inline { name } => {
            let key = if name == "$top_level_main"@ {
                "main"@
            } else {
                name
            };
            if map_lookup(syn.contexts, key) is Some {
                lemma_map_lookup_in(syn.contexts, key);
            }
        },
        CtxRefV::ByScope { scope, sub_context } => {
            match first_by_scope(syns, scope) {
                Option::Some(i) => {
                    crate::syntax_set::lemma_first_by_scope_in_bounds(syns, scope);
                    let key = crate::linker::sub_or_main(sub_context);
                    if map_lookup(syns[i].contexts, key) is Some {
                        lemma_map_lookup_in(syns[i].contexts, key);
                    }
                },
                Option::None => {},
            }
        },
        CtxRefV::File { name, sub_context } => {
            match first_by_name(syns, name) {
                Option::Some(i) => {
                    crate::syntax_set::lemma_first_by_name_in_bounds(syns, name);
                    let key = crate::linker::sub_or_main(sub_context);
                    if map_lookup(syns[i].contexts, key) is Some {
                        lemma_map_lookup_in(syns[i].contexts, key);
                    }
                },
                Option::None => {},
            }
        },
        CtxRefV::Direct { id } => {},
    }
}

// ---------------------------------------------------------------------------
// the laws
// ---------------------------------------------------------------------------
/// Every context handle in a freshly built set — in the per-syntax maps, in
/// the rewritten `Direct` references, and in the attached `prototype`
/// fields — indexes a valid element of the flat context table, provided the
/// definitions came in clean (no stale `Direct` references), as a loader
/// produces them.
pub proof fn lemma_build_ids_valid(b: BuilderV)
    requires
        builder_clean(b),
    ensures
        set_ids_wf(build_v(b)),
{
    let defs = b.syntaxes;
    let s = build_v(b);
    let refs = assign_refs(defs, 0);
    let pre = assign_ctxs(defs);
    let n = total_ctxs(defs);
    lemma_assign_ctxs_len(defs);
    lemma_assign_maps_bounds(defs);
    lemma_assign_refs_struct(defs, 0);
    assert(s.contexts.len() == n);
    assert(maps_wf(s)) by {
        assert(s.syntaxes == refs);
    }
    assert forall|k: int| 0 <= k < s.contexts.len() implies ctx_ids_wf(
        #[trigger] s.contexts[k],
        s.contexts.len() as int,
    ) by {
        lemma_owner_block(defs, k);
        let i = owner_idx(defs, k);
        let j = k - total_ctxs(defs.take(i));
        lemma_owner_idx_at(defs, i, j);
        lemma_assign_ctxs_at(defs, i, j);
        lemma_sort_len(defs[i].contexts);
        let syn = refs[i];
        assert(syn == crate::linker::def_to_ref(defs[i], total_ctxs(defs.take(i))));
        assert(s.contexts[k] == linked_ctx(pre, syn, refs, k));
        // the context being linked is one of definition i's own contexts
        let sorted = sort_named_ctxs(defs[i].contexts);
        assert(pre[k] == sorted[j].1);
        assert(sorted.contains(sorted[j]));
        lemma_sort_contains(defs[i].contexts, sorted[j]);
        let t = choose|t: int|
            0 <= t < defs[i].contexts.len() && defs[i].contexts[t] == sorted[j];
        assert(ctx_clean(defs[i].contexts[t].1));
        assert(ctx_clean(pre[k]));
        let c = linked_ctx(pre, syn, refs, k);
        // the prototype field is either freshly attached from syntax i's map
        // or the clean definition's None
        assert(match c.prototype {
            Option::Some(p) => 0 <= p < n,
            Option::None => true,
        }) by {
            match map_lookup(syn.contexts, "prototype"@) {
                Option::Some(pr) => {
                    lemma_map_lookup_in(syn.contexts, "prototype"@);
                },
                Option::None => {},
            }
        }
        // every rewritten reference is either Direct into the table or the
        // clean original
        assert forall|pi: int| 0 <= pi < c.patterns.len() implies pat_ids_wf(
            #[trigger] c.patterns[pi],
            n,
        ) by {
            assert(c.patterns[pi] == link_pat(pre[k].patterns[pi], syn, refs));
            let p0 = pre[k].patterns[pi];
            assert(pat_clean(p0));
            match p0 {
                PatternV::Match { p: mp } => {
                    match mp.operation {
                        MatchOpV::Push { targets } => {
                            assert forall|tj: int|
                                0 <= tj < targets.len() implies ref_ids_wf(
                                resolve_ref(#[trigger] targets[tj], syn, refs),
                                n,
                            ) by {
                                lemma_resolve_ref_wf(targets[tj], syn, refs, n);
                            }
                        },
                        MatchOpV::SetContexts { targets } => {
                            assert forall|tj: int|
                                0 <= tj < targets.len() implies ref_ids_wf(
                                resolve_ref(#[trigger] targets[tj], syn, refs),
                                n,
                            ) by {
                                lemma_resolve_ref_wf(targets[tj], syn, refs, n);
                            }
                        },
                        _ => {},
                    }
                    match mp.with_prototype {
                        Option::Some(r) => {
                            lemma_resolve_ref_wf(r, syn, refs, n);
                        },
                        Option::None => {},
                    }
                },
                PatternV::Include { r } => {
                    lemma_resolve_ref_wf(r, syn, refs, n);
                },
            }
        }
    }
}

/// Building is a function of the builder's contents alone: the same
/// definitions in the same order give the same linked set, and therefore
/// byte-identical serialized output of the durable fields.
pub proof fn lemma_build_deterministic(b1: BuilderV, b2: BuilderV)
    requires
        b1 == b2,
    ensures
        build_v(b1) == build_v(b2),
{
}

/// A context the prototype transitively pulls in (through local `Push`/
/// `SetContexts` targets and named `Include`s) never has the prototype
/// attached: with clean definitions its `prototype` field stays `None`.
pub proof fn lemma_prototype_no_propagation(b: BuilderV, i: int, j: int)
    requires
        builder_clean(b),
        0 <= i < b.syntaxes.len(),
        0 <= j < b.syntaxes[i].contexts.len(),
    ensures
        ({
            let defs = b.syntaxes;
            let refs = assign_refs(defs, 0);
            let pre = assign_ctxs(defs);
            let k = total_ctxs(defs.take(i)) + j;
            match map_lookup(refs[i].contexts, "prototype"@) {
                Option::Some(pr) => reachable(pre, refs[i].contexts, pr, k) ==> build_v(
                    b,
                ).contexts[k].prototype is None,
                Option::None => true,
            }
        }),
{
    let defs = b.syntaxes;
    let refs = assign_refs(defs, 0);
    let pre = assign_ctxs(defs);
    let k = total_ctxs(defs.take(i)) + j;
    lemma_owner_idx_at(defs, i, j);
    lemma_assign_ctxs_at(defs, i, j);
    lemma_assign_ctxs_len(defs);
    lemma_assign_refs_struct(defs, 0);
    lemma_sort_len(defs[i].contexts);
    assert(build_v(b).contexts[k] == linked_ctx(pre, refs[i], refs, k));
    let sorted = sort_named_ctxs(defs[i].contexts);
    assert(pre[k] == sorted[j].1);
    assert(sorted.contains(sorted[j]));
    lemma_sort_contains(defs[i].contexts, sorted[j]);
    let t = choose|t: int| 0 <= t < defs[i].contexts.len() && defs[i].contexts[t] == sorted[j];
    assert(ctx_clean(defs[i].contexts[t].1));
    assert(pre[k].prototype is None);
}

/// Every other context of that syntax with `meta_include_prototype` set has
/// its `prototype` field set to exactly the prototype's id.
pub proof fn lemma_prototype_propagation(b: BuilderV, i: int, j: int)
    requires
        0 <= i < b.syntaxes.len(),
        0 <= j < b.syntaxes[i].contexts.len(),
    ensures
        ({
            let defs = b.syntaxes;
            let refs = assign_refs(defs, 0);
            let pre = assign_ctxs(defs);
            let k = total_ctxs(defs.take(i)) + j;
            match map_lookup(refs[i].contexts, "prototype"@) {
                Option::Some(pr) => (!reachable(pre, refs[i].contexts, pr, k)
                    && pre[k].meta_include_prototype) ==> build_v(b).contexts[k].prototype
                    == Option::Some(pr),
                Option::None => true,
            }
        }),
{
    let defs = b.syntaxes;
    let refs = assign_refs(defs, 0);
    let pre = assign_ctxs(defs);
    let k = total_ctxs(defs.take(i)) + j;
    lemma_owner_idx_at(defs, i, j);
    lemma_assign_ctxs_at(defs, i, j);
    lemma_assign_ctxs_len(defs);
    lemma_assign_refs_struct(defs, 0);
    lemma_sort_len(defs[i].contexts);
    assert(build_v(b).contexts[k] == linked_ctx(pre, refs[i], refs, k));
}

/// Metadata relevant to the lookup surface.
pub open spec fn same_meta(a: SynRefV, c: SynRefV) -> bool {
    a.name == c.name && a.scope == c.scope && a.file_extensions == c.file_extensions
        && a.first_line_match == c.first_line_match
}

proof fn lemma_lookups_congruent(a: Seq<SynRefV>, c: Seq<SynRefV>, q: Seq<char>)
    requires
        a.len() == c.len(),
        forall|i: int| 0 <= i < a.len() ==> same_meta(#[trigger] a[i], c[i]),
    ensures
        first_by_name(a, q) == first_by_name(c, q),
        first_by_scope(a, q) == first_by_scope(c, q),
        first_by_ext(a, q) == first_by_ext(c, q),
        first_by_iname(a, q) == first_by_iname(c, q),
        cache_entries(a) == cache_entries(c),
    decreases a.len(),
{
    if a.len() > 0 {
        lemma_lookups_congruent(a.drop_first(), c.drop_first(), q);
        assert(forall|i: int|
            0 <= i < a.drop_first().len() ==> same_meta(
                #[trigger] a.drop_first()[i],
                c.drop_first()[i],
            ));
        assert(same_meta(a[0], c[0]));
        lemma_lookups_congruent_tail(a, c, q);
    }
}

proof fn lemma_lookups_congruent_tail(a: Seq<SynRefV>, c: Seq<SynRefV>, q: Seq<char>)
    requires
        a.len() == c.len(),
        a.len() > 0,
        forall|i: int| 0 <= i < a.len() ==> same_meta(#[trigger] a[i], c[i]),
        first_by_name(a.drop_first(), q) == first_by_name(c.drop_first(), q),
        first_by_scope(a.drop_first(), q) == first_by_scope(c.drop_first(), q),
        first_by_ext(a.drop_first(), q) == first_by_ext(c.drop_first(), q),
        first_by_iname(a.drop_first(), q) == first_by_iname(c.drop_first(), q),
        cache_entries(a.drop_first()) == cache_entries(c.drop_first()),
    ensures
        first_by_name(a, q) == first_by_name(c, q),
        first_by_scope(a, q) == first_by_scope(c, q),
        first_by_ext(a, q) == first_by_ext(c, q),
        first_by_iname(a, q) == first_by_iname(c, q),
        cache_entries(a) == cache_entries(c),
{
    assert(same_meta(a[0], c[0]));
    lemma_cache_entries_congruent(a, c);
}

proof fn lemma_cache_entries_congruent(a: Seq<SynRefV>, c: Seq<SynRefV>)
    requires
        a.len() == c.len(),
        forall|i: int| 0 <= i < a.len() ==> same_meta(#[trigger] a[i], c[i]),
    ensures
        cache_entries(a) == cache_entries(c),
    decreases a.len(),
{
    if a.len() > 0 {
        lemma_cache_entries_congruent(a.drop_last(), c.drop_last());
        assert(forall|i: int|
            0 <= i < a.drop_last().len() ==> same_meta(
                #[trigger] a.drop_last()[i],
                c.drop_last()[i],
            ));
        assert(same_meta(a[a.len() - 1], c[c.len() - 1]));
    }
}

/// Rebuilding after `into_builder` preserves the whole lookup surface: for
/// every query, lookups by name, scope, extension, token, path and first
/// line give the same answer on the rebuilt set as on the original.
pub proof fn lemma_rebuild_preserves_lookups(s: SyntaxSetV, q: Seq<char>)
    ensures
        ({
            let s2 = build_v(into_builder_v(s));
            &&& first_by_name(s2.syntaxes, q) == first_by_name(s.syntaxes, q)
            &&& first_by_scope(s2.syntaxes, q) == first_by_scope(s.syntaxes, q)
            &&& first_by_ext(s2.syntaxes, q) == first_by_ext(s.syntaxes, q)
            &&& first_by_iname(s2.syntaxes, q) == first_by_iname(s.syntaxes, q)
            &&& token_lookup(s2.syntaxes, q) == token_lookup(s.syntaxes, q)
            &&& first_path_match(s2.path_syntaxes, q) == first_path_match(s.path_syntaxes, q)
            &&& cache_entries(s2.syntaxes) == cache_entries(s.syntaxes)
        }),
{
    let b = into_builder_v(s);
    let s2 = build_v(b);
    lemma_assign_refs_struct(b.syntaxes, 0);
    assert(s2.syntaxes.len() == s.syntaxes.len());
    assert forall|i: int| 0 <= i < s2.syntaxes.len() implies same_meta(
        #[trigger] s2.syntaxes[i],
        s.syntaxes[i],
    ) by {
        assert(b.syntaxes[i] == def_of_ref(s.syntaxes[i], s.contexts));
        assert(s2.syntaxes[i] == crate::linker::def_to_ref(
            b.syntaxes[i],
            total_ctxs(b.syntaxes.take(i)),
        ));
    }
    lemma_lookups_congruent(s2.syntaxes, s.syntaxes, q);
}

/// `find_syntax_by_path` answers positively exactly when some recorded path
/// equals the query or ends with `"/" + query`; a suffix not preceded by a
/// separator never matches.
pub proof fn lemma_path_lookup_exact(paths: Seq<(Seq<char>, int)>, q: Seq<char>)
    ensures
        (first_path_match(paths, q) is Some) <==> exists|i: int|
            0 <= i < paths.len() && path_matches((#[trigger] paths[i]).0, q),
    decreases paths.len(),
{
    if paths.len() > 0 {
        lemma_path_lookup_exact(paths.drop_first(), q);
        if path_matches(paths[0].0, q) {
        } else {
            if first_path_match(paths, q) is Some {
                let i = choose|i: int|
                    0 <= i < paths.drop_first().len() && path_matches(
                        (#[trigger] paths.drop_first()[i]).0,
                        q,
                    );
                assert(path_matches(paths[i + 1].0, q));
            } else {
                if exists|i: int| 0 <= i < paths.len() && path_matches((#[trigger] paths[i]).0, q) {
                    let i = choose|i: int|
                        0 <= i < paths.len() && path_matches((#[trigger] paths[i]).0, q);
                    assert(path_matches(paths.drop_first()[i - 1].0, q));
                }
            }
        }
    }
}

/// The token lookup prefers an extension match; only when no syntax lists
/// the token as an extension does it fall back to the ASCII
/// case-insensitive name match.
pub proof fn lemma_token_prefers_extension(syns: Seq<SynRefV>, tok: Seq<char>)
    ensures
        first_by_ext(syns, tok) is Some ==> token_lookup(syns, tok) == first_by_ext(syns, tok),
        first_by_ext(syns, tok) is None ==> token_lookup(syns, tok) == first_by_iname(syns, tok),
        first_by_iname(syns, tok) is Some ==> ascii_ieq(
            syns[first_by_iname(syns, tok).unwrap()].name,
            tok,
        ),
    decreases syns.len(),
{
    if syns.len() > 0 && !ascii_ieq(syns[0].name, tok) {
        lemma_token_prefers_extension(syns.drop_first(), tok);
        match first_by_iname(syns.drop_first(), tok) {
            Option::Some(i) => {
                crate::syntax_set::lemma_first_by_iname_in_bounds(syns.drop_first(), tok);
                assert(syns.drop_first()[i] == syns[1 + i]);
            },
            Option::None => {},
        }
    }
}

} // verus!

