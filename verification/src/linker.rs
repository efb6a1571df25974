//! The mathematical model of `build()`: context assignment (sorted by name),
//! reference resolution, and the prototype no-propagation closure.
//!
//! `build_v` is a total spec function from a builder's view to the view of
//! the linked set; the executable `build` is proved to return exactly it.

use vstd::prelude::*;

use crate::strutil::lex_le;
use crate::syntax_definition::{ContextV, CtxRefV, MatchOpV, MatchPatV, PatternV, SynDefV};
use crate::syntax_set::{BuilderV, SynRefV, SyntaxSetV};

verus! {

// ---------------------------------------------------------------------------
// name -> id maps (association lists; first entry wins)
// ---------------------------------------------------------------------------
pub open spec fn map_lookup(m: Seq<(Seq<char>, int)>, name: Seq<char>) -> Option<int>
    decreases m.len(),
{
    if m.len() == 0 {
        Option::None
    } else if m[0].0 == name {
        Option::Some(m[0].1)
    } else {
        map_lookup(m.drop_first(), name)
    }
}

/// First-match characterization: a hit at `i` with no earlier hit decides it.
pub proof fn lemma_map_lookup_at(m: Seq<(Seq<char>, int)>, name: Seq<char>, i: int)
    requires
        0 <= i < m.len(),
        m[i].0 == name,
        forall|j: int| 0 <= j < i ==> m[j].0 != name,
    ensures
        map_lookup(m, name) == Option::Some(m[i].1),
    decreases i,
{
    if i > 0 {
        lemma_map_lookup_at(m.drop_first(), name, i - 1);
    }
}

pub proof fn lemma_map_lookup_none(m: Seq<(Seq<char>, int)>, name: Seq<char>)
    requires
        forall|j: int| 0 <= j < m.len() ==> m[j].0 != name,
    ensures
        map_lookup(m, name) == Option::None::<int>,
    decreases m.len(),
{
    if m.len() > 0 {
        lemma_map_lookup_none(m.drop_first(), name);
    }
}

/// Any hit of `map_lookup` is one of the entries' ids.
pub proof fn lemma_map_lookup_in(m: Seq<(Seq<char>, int)>, name: Seq<char>)
    requires
        map_lookup(m, name) is Some,
    ensures
        exists|j: int| 0 <= j < m.len() && m[j].1 == map_lookup(m, name).unwrap(),
    decreases m.len(),
{
    if m.len() > 0 && m[0].0 != name {
        lemma_map_lookup_in(m.drop_first(), name);
        let j = choose|j: int|
            0 <= j < m.drop_first().len() && m.drop_first()[j].1 == map_lookup(m, name).unwrap();
        assert(m[j + 1].1 == map_lookup(m, name).unwrap());
    }
}

// ---------------------------------------------------------------------------
// phase 1: stable insertion sort of a definition's contexts by name
// ---------------------------------------------------------------------------
pub open spec fn insert_sorted(s: Seq<(Seq<char>, ContextV)>, x: (Seq<char>, ContextV)) -> Seq<
    (Seq<char>, ContextV),
>
    decreases s.len(),
{
    if s.len() == 0 {
        seq![x]
    } else if lex_le(s[0].0, x.0) {
        seq![s[0]] + insert_sorted(s.drop_first(), x)
    } else {
        seq![x] + s
    }
}

pub open spec fn sort_named_ctxs(s: Seq<(Seq<char>, ContextV)>) -> Seq<(Seq<char>, ContextV)>
    decreases s.len(),
{
    if s.len() == 0 {
        s
    } else {
        insert_sorted(sort_named_ctxs(s.drop_last()), s.last())
    }
}

/// Inserting at the first position whose name is above `x` realizes
/// `insert_sorted`.
pub proof fn lemma_insert_sorted_at(s: Seq<(Seq<char>, ContextV)>, x: (Seq<char>, ContextV), p: int)
    requires
        0 <= p <= s.len(),
        forall|j: int| 0 <= j < p ==> lex_le(#[trigger] s[j].0, x.0),
        p < s.len() ==> !lex_le(s[p].0, x.0),
    ensures
        insert_sorted(s, x) =~= s.take(p) + seq![x] + s.skip(p),
    decreases p,
{
    if s.len() == 0 {
        assert(insert_sorted(s, x) =~= seq![x]);
    } else if p == 0 {
        assert(insert_sorted(s, x) =~= seq![x] + s);
    } else {
        lemma_insert_sorted_at(s.drop_first(), x, p - 1);
        assert(s.drop_first().take(p - 1) =~= s.take(p).drop_first());
        assert(s.drop_first().skip(p - 1) =~= s.skip(p));
        assert(insert_sorted(s, x) =~= seq![s[0]] + insert_sorted(s.drop_first(), x));
    }
}

// ---------------------------------------------------------------------------
// phase 1: assignment of flat context ids, definition by definition
// ---------------------------------------------------------------------------
/// Number of contexts that a run of definitions contributes.
pub open spec fn total_ctxs(defs: Seq<SynDefV>) -> int
    decreases defs.len(),
{
    if defs.len() == 0 {
        0
    } else {
        defs[0].contexts.len() + total_ctxs(defs.drop_first())
    }
}

/// The linked reference of one definition whose contexts start at `base`.
pub open spec fn def_to_ref(d: SynDefV, base: int) -> SynRefV {
    let sorted = sort_named_ctxs(d.contexts);
    SynRefV {
        name: d.name,
        file_extensions: d.file_extensions,
        scope: d.scope,
        first_line_match: d.first_line_match,
        hidden: d.hidden,
        variables: d.variables,
        contexts: Seq::new(sorted.len(), |j: int| (sorted[j].0, base + j)),
    }
}

pub open spec fn assign_refs(defs: Seq<SynDefV>, base: int) -> Seq<SynRefV>
    decreases defs.len(),
{
    if defs.len() == 0 {
        Seq::empty()
    } else {
        seq![def_to_ref(defs[0], base)] + assign_refs(
            defs.drop_first(),
            base + defs[0].contexts.len(),
        )
    }
}

pub open spec fn assign_ctxs(defs: Seq<SynDefV>) -> Seq<ContextV>
    decreases defs.len(),
{
    if defs.len() == 0 {
        Seq::empty()
    } else {
        sort_named_ctxs(defs[0].contexts).map_values(|p: (Seq<char>, ContextV)| p.1) + assign_ctxs(
            defs.drop_first(),
        )
    }
}

/// Index of the definition owning flat context id `k`.
pub open spec fn owner_idx(defs: Seq<SynDefV>, k: int) -> int
    decreases defs.len(),
{
    if defs.len() == 0 {
        0
    } else if k < defs[0].contexts.len() {
        0
    } else {
        1 + owner_idx(defs.drop_first(), k - defs[0].contexts.len())
    }
}

// snoc lemmas: pushing one definition extends the assignment on the right.
pub proof fn lemma_total_ctxs_snoc(defs: Seq<SynDefV>, d: SynDefV)
    ensures
        total_ctxs(defs.push(d)) == total_ctxs(defs) + d.contexts.len(),
    decreases defs.len(),
{
    assert(defs.push(d)[0] == if defs.len() == 0 {
        d
    } else {
        defs[0]
    });
    if defs.len() == 0 {
        assert(defs.push(d).drop_first() =~= Seq::<SynDefV>::empty());
        assert(total_ctxs(defs.push(d)) == d.contexts.len() + total_ctxs(
            defs.push(d).drop_first(),
        ));
    } else {
        lemma_total_ctxs_snoc(defs.drop_first(), d);
        assert(defs.push(d).drop_first() =~= defs.drop_first().push(d));
        assert(total_ctxs(defs.push(d)) == defs[0].contexts.len() + total_ctxs(
            defs.push(d).drop_first(),
        ));
    }
}

pub proof fn lemma_assign_refs_snoc(defs: Seq<SynDefV>, d: SynDefV, base: int)
    ensures
        assign_refs(defs.push(d), base) =~= assign_refs(defs, base).push(
            def_to_ref(d, base + total_ctxs(defs)),
        ),
    decreases defs.len(),
{
    assert(defs.push(d)[0] == if defs.len() == 0 {
        d
    } else {
        defs[0]
    });
    if defs.len() == 0 {
        assert(defs.push(d).drop_first() =~= Seq::<SynDefV>::empty());
        assert(total_ctxs(defs) == 0);
        assert(assign_refs(defs.push(d), base) =~= seq![def_to_ref(d, base)] + assign_refs(
            defs.push(d).drop_first(),
            base + d.contexts.len(),
        ));
        assert(assign_refs(defs, base) =~= Seq::<SynRefV>::empty());
    } else {
        lemma_assign_refs_snoc(defs.drop_first(), d, base + defs[0].contexts.len());
        assert(defs.push(d).drop_first() =~= defs.drop_first().push(d));
        assert(total_ctxs(defs) == defs[0].contexts.len() + total_ctxs(defs.drop_first()));
        assert(assign_refs(defs.push(d), base) =~= seq![def_to_ref(defs[0], base)] + assign_refs(
            defs.drop_first().push(d),
            base + defs[0].contexts.len(),
        ));
        assert(assign_refs(defs, base) =~= seq![def_to_ref(defs[0], base)] + assign_refs(
            defs.drop_first(),
            base + defs[0].contexts.len(),
        ));
    }
}

pub proof fn lemma_assign_ctxs_snoc(defs: Seq<SynDefV>, d: SynDefV)
    ensures
        assign_ctxs(defs.push(d)) =~= assign_ctxs(defs) + sort_named_ctxs(d.contexts).map_values(
            |p: (Seq<char>, ContextV)| p.1,
        ),
    decreases defs.len(),
{
    assert(defs.push(d)[0] == if defs.len() == 0 {
        d
    } else {
        defs[0]
    });
    if defs.len() == 0 {
        assert(defs.push(d).drop_first() =~= Seq::<SynDefV>::empty());
        assert(assign_ctxs(defs) =~= Seq::<ContextV>::empty());
        assert(assign_ctxs(defs.push(d)) =~= sort_named_ctxs(d.contexts).map_values(
            |p: (Seq<char>, ContextV)| p.1,
        ) + assign_ctxs(defs.push(d).drop_first()));
    } else {
        lemma_assign_ctxs_snoc(defs.drop_first(), d);
        assert(defs.push(d).drop_first() =~= defs.drop_first().push(d));
        assert(assign_ctxs(defs.push(d)) =~= sort_named_ctxs(defs[0].contexts).map_values(
            |p: (Seq<char>, ContextV)| p.1,
        ) + assign_ctxs(defs.drop_first().push(d)));
        assert(assign_ctxs(defs) =~= sort_named_ctxs(defs[0].contexts).map_values(
            |p: (Seq<char>, ContextV)| p.1,
        ) + assign_ctxs(defs.drop_first()));
    }
}

/// The assignment phase yields as many contexts as the definitions hold.
pub proof fn lemma_assign_ctxs_len(defs: Seq<SynDefV>)
    ensures
        assign_ctxs(defs).len() == total_ctxs(defs),
        total_ctxs(defs) >= 0,
    decreases defs.len(),
{
    if defs.len() > 0 {
        lemma_assign_ctxs_len(defs.drop_first());
        lemma_sort_len(defs[0].contexts);
    }
}

pub proof fn lemma_insert_sorted_len(s: Seq<(Seq<char>, ContextV)>, x: (Seq<char>, ContextV))
    ensures
        insert_sorted(s, x).len() == s.len() + 1,
    decreases s.len(),
{
    if s.len() > 0 && lex_le(s[0].0, x.0) {
        lemma_insert_sorted_len(s.drop_first(), x);
    }
}

pub proof fn lemma_sort_len(s: Seq<(Seq<char>, ContextV)>)
    ensures
        sort_named_ctxs(s).len() == s.len(),
    decreases s.len(),
{
    if s.len() > 0 {
        lemma_sort_len(s.drop_last());
        lemma_insert_sorted_len(sort_named_ctxs(s.drop_last()), s.last());
    }
}

// ---------------------------------------------------------------------------
// phase 2: reference resolution against the assigned maps
// ---------------------------------------------------------------------------
/// A sub-context name, defaulting to `main`.
pub open spec fn sub_or_main(sub: Option<Seq<char>>) -> Seq<char> {
    match sub {
        Option::Some(s) => s,
        Option::None => "main"@,
    }
}

/// Index of the first syntax with the given default scope.
pub open spec fn first_by_scope(syns: Seq<SynRefV>, scope: Seq<char>) -> Option<int>
    decreases syns.len(),
{
    if syns.len() == 0 {
        Option::None
    } else if syns[0].scope == scope {
        Option::Some(0)
    } else {
        match first_by_scope(syns.drop_first(), scope) {
            Option::Some(i) => Option::Some(1 + i),
            Option::None => Option::None,
        }
    }
}

/// Index of the first syntax with the given display name.
pub open spec fn first_by_name(syns: Seq<SynRefV>, name: Seq<char>) -> Option<int>
    decreases syns.len(),
{
    if syns.len() == 0 {
        Option::None
    } else if syns[0].name == name {
        Option::Some(0)
    } else {
        match first_by_name(syns.drop_first(), name) {
            Option::Some(i) => Option::Some(1 + i),
            Option::None => Option::None,
        }
    }
}

/// Resolution of one reference: a hit becomes `Direct`, a miss survives.
/// The legacy placeholder `$top_level_main` aliases the current syntax's
/// `main` context.
pub open spec fn resolve_ref(r: CtxRefV, syn: SynRefV, syns: Seq<SynRefV>) -> CtxRefV {
    let target = match r {
        CtxRefV::Named { name } => map_lookup(
            syn.contexts,
            if name == "$top_level_main"@ {
                "main"@
            } else {
                name
            },
        ),
        CtxRefV::Inline { name } => map_lookup(
            syn.contexts,
            if name == "$top_level_main"@ {
                "main"@
            } else {
                name
            },
        ),
        CtxRefV::ByScope { scope, sub_context } => match first_by_scope(syns, scope) {
            Option::Some(i) => map_lookup(syns[i].contexts, sub_or_main(sub_context)),
            Option::None => Option::None,
        },
        CtxRefV::File { name, sub_context } => match first_by_name(syns, name) {
            Option::Some(i) => map_lookup(syns[i].contexts, sub_or_main(sub_context)),
            Option::None => Option::None,
        },
        CtxRefV::Direct { id } => Option::None,
    };
    match target {
        Option::Some(id) => CtxRefV::Direct { id },
        Option::None => r,
    }
}

pub open spec fn link_op(op: MatchOpV, syn: SynRefV, syns: Seq<SynRefV>) -> MatchOpV {
    match op {
        MatchOpV::Push { targets } => MatchOpV::Push {
            targets: targets.map_values(|r: CtxRefV| resolve_ref(r, syn, syns)),
        },
        MatchOpV::SetContexts { targets } => MatchOpV::SetContexts {
            targets: targets.map_values(|r: CtxRefV| resolve_ref(r, syn, syns)),
        },
        MatchOpV::Pop => MatchOpV::Pop,
        MatchOpV::NoOp => MatchOpV::NoOp,
    }
}

pub open spec fn link_pat(p: PatternV, syn: SynRefV, syns: Seq<SynRefV>) -> PatternV {
    match p {
        PatternV::Match { p: mp } => PatternV::Match {
            p: MatchPatV {
                operation: link_op(mp.operation, syn, syns),
                with_prototype: match mp.with_prototype {
                    Option::Some(r) => Option::Some(resolve_ref(r, syn, syns)),
                    Option::None => Option::None,
                },
                ..mp
            },
        },
        PatternV::Include { r } => PatternV::Include { r: resolve_ref(r, syn, syns) },
    }
}

// ---------------------------------------------------------------------------
// phase 3: the prototype no-propagation closure
// ---------------------------------------------------------------------------
/// The id a reference contributes to the closure: named and inline targets of
/// the current syntax only (no placeholder handling, no cross-syntax edges).
pub open spec fn mark_target(m: Seq<(Seq<char>, int)>, r: CtxRefV) -> Option<int> {
    match r {
        CtxRefV::Named { name } => map_lookup(m, name),
        CtxRefV::Inline { name } => map_lookup(m, name),
        _ => Option::None,
    }
}

/// One pattern contributes an edge to `b`: through `Push`/`SetContexts`
/// targets (named or inline), or through `Include` of a named context.
/// Inline includes are deliberately not traversed.
pub open spec fn pattern_marks(p: PatternV, m: Seq<(Seq<char>, int)>, b: int) -> bool {
    match p {
        PatternV::Match { p: mp } => match mp.operation {
            MatchOpV::Push { targets } => exists|j: int|
                0 <= j < targets.len() && mark_target(m, #[trigger] targets[j]) == Option::Some(b),
            MatchOpV::SetContexts { targets } => exists|j: int|
                0 <= j < targets.len() && mark_target(m, #[trigger] targets[j]) == Option::Some(b),
            _ => false,
        },
        PatternV::Include { r } => match r {
            CtxRefV::Named { name } => map_lookup(m, name) == Option::Some(b),
            _ => false,
        },
    }
}

/// The context graph edge relation used by the closure.
pub open spec fn ctx_marks(c: ContextV, m: Seq<(Seq<char>, int)>, b: int) -> bool {
    exists|i: int| 0 <= i < c.patterns.len() && pattern_marks(#[trigger] c.patterns[i], m, b)
}

/// Edge contributed by one of the first `pi` patterns only.
pub open spec fn marks_before(c: ContextV, m: Seq<(Seq<char>, int)>, b: int, pi: int) -> bool {
    exists|i: int| 0 <= i < pi && pattern_marks(#[trigger] c.patterns[i], m, b)
}

/// A walk through the edge relation, all nodes in bounds.
pub open spec fn is_mark_path(
    ctxs: Seq<ContextV>,
    m: Seq<(Seq<char>, int)>,
    p: Seq<int>,
) -> bool {
    &&& p.len() >= 1
    &&& forall|i: int| 0 <= i < p.len() ==> 0 <= #[trigger] p[i] < ctxs.len()
    &&& forall|i: int| 0 <= i < p.len() - 1 ==> ctx_marks(ctxs[#[trigger] p[i]], m, p[i + 1])
}

/// `t` is in the transitive closure from `start` (including `start` itself).
pub open spec fn reachable(
    ctxs: Seq<ContextV>,
    m: Seq<(Seq<char>, int)>,
    start: int,
    t: int,
) -> bool {
    exists|p: Seq<int>|
        is_mark_path(ctxs, m, p) && p.first() == start && p.last() == t
}

/// The start node is reachable when in bounds.
pub proof fn lemma_reachable_refl(ctxs: Seq<ContextV>, m: Seq<(Seq<char>, int)>, start: int)
    requires
        0 <= start < ctxs.len(),
    ensures
        reachable(ctxs, m, start, start),
{
    let p = seq![start];
    assert(is_mark_path(ctxs, m, p) && p.first() == start && p.last() == start);
}

/// Reachability extends along one edge.
pub proof fn lemma_reachable_step(
    ctxs: Seq<ContextV>,
    m: Seq<(Seq<char>, int)>,
    start: int,
    a: int,
    b: int,
)
    requires
        reachable(ctxs, m, start, a),
        ctx_marks(ctxs[a], m, b),
        0 <= b < ctxs.len(),
    ensures
        reachable(ctxs, m, start, b),
{
    let p = choose|p: Seq<int>|
        is_mark_path(ctxs, m, p) && p.first() == start && p.last() == a;
    let q = p.push(b);
    assert(q.last() == b);
    assert(forall|i: int| 0 <= i < q.len() - 1 ==> ctx_marks(ctxs[#[trigger] q[i]], m, q[i + 1]))
        by {
        assert(forall|i: int| 0 <= i < p.len() ==> q[i] == p[i]);
        assert(ctx_marks(ctxs[q[q.len() - 2]], m, q[q.len() - 1]));
    }
    assert(is_mark_path(ctxs, m, q) && q.first() == start);
}

/// Any set that contains `start` and is closed under the edge relation
/// contains everything reachable from `start`.
pub proof fn lemma_reachable_in_closed(
    ctxs: Seq<ContextV>,
    m: Seq<(Seq<char>, int)>,
    start: int,
    t: int,
    s: Set<int>,
)
    requires
        reachable(ctxs, m, start, t),
        s.contains(start),
        forall|a: int, b: int|
            s.contains(a) && 0 <= a < ctxs.len() && #[trigger] ctx_marks(ctxs[a], m, b) && 0 <= b
                < ctxs.len() ==> s.contains(b),
    ensures
        s.contains(t),
{
    let p = choose|p: Seq<int>|
        is_mark_path(ctxs, m, p) && p.first() == start && p.last() == t;
    lemma_path_in_closed(ctxs, m, p, s);
}

proof fn lemma_path_in_closed(
    ctxs: Seq<ContextV>,
    m: Seq<(Seq<char>, int)>,
    p: Seq<int>,
    s: Set<int>,
)
    requires
        is_mark_path(ctxs, m, p),
        s.contains(p.first()),
        forall|a: int, b: int|
            s.contains(a) && 0 <= a < ctxs.len() && #[trigger] ctx_marks(ctxs[a], m, b) && 0 <= b
                < ctxs.len() ==> s.contains(b),
    ensures
        s.contains(p.last()),
    decreases p.len(),
{
    if p.len() == 1 {
    } else {
        let q = p.drop_first();
        assert(ctx_marks(ctxs[p[0]], m, p[1]));
        assert(s.contains(p[1]));
        assert(is_mark_path(ctxs, m, q)) by {
            assert(forall|i: int| 0 <= i < q.len() ==> q[i] == p[i + 1]);
        }
        lemma_path_in_closed(ctxs, m, q, s);
    }
}

/// The assignment phase, described index-wise: syntax `i`'s reference is
/// its definition with ids starting at the number of contexts before it.
pub proof fn lemma_assign_refs_struct(defs: Seq<SynDefV>, base: int)
    ensures
        assign_refs(defs, base).len() == defs.len(),
        forall|i: int|
            0 <= i < defs.len() ==> assign_refs(defs, base)[i] == def_to_ref(
                defs[i],
                base + total_ctxs(defs.take(i)),
            ),
    decreases defs.len(),
{
    if defs.len() > 0 {
        lemma_assign_refs_struct(defs.drop_first(), base + defs[0].contexts.len());
        assert(defs.take(0) =~= Seq::<SynDefV>::empty());
        assert forall|i: int|
            0 <= i < defs.len() implies assign_refs(defs, base)[i] == def_to_ref(
            defs[i],
            base + total_ctxs(defs.take(i)),
        ) by {
            if i > 0 {
                assert(defs.drop_first().take(i - 1) =~= defs.take(i).drop_first());
                assert(total_ctxs(defs.take(i)) == defs.take(i)[0].contexts.len() + total_ctxs(
                    defs.take(i).drop_first(),
                ));
                assert(assign_refs(defs, base)[i] == assign_refs(
                    defs.drop_first(),
                    base + defs[0].contexts.len(),
                )[i - 1]);
            }
        }
    }
}

/// Context counts are non-negative and split across a cut.
pub proof fn lemma_total_ctxs_split(defs: Seq<SynDefV>, i: int)
    requires
        0 <= i <= defs.len(),
    ensures
        total_ctxs(defs) == total_ctxs(defs.take(i)) + total_ctxs(defs.skip(i)),
        total_ctxs(defs.take(i)) >= 0,
        total_ctxs(defs.skip(i)) >= 0,
    decreases i,
{
    lemma_assign_ctxs_len(defs.take(i));
    lemma_assign_ctxs_len(defs.skip(i));
    if i == 0 {
        assert(defs.take(0) =~= Seq::<SynDefV>::empty());
        assert(defs.skip(0) =~= defs);
    } else {
        lemma_total_ctxs_split(defs.drop_first(), i - 1);
        assert(defs.take(i).drop_first() =~= defs.drop_first().take(i - 1));
        assert(defs.skip(i) =~= defs.drop_first().skip(i - 1));
        assert(total_ctxs(defs.take(i)) == defs[0].contexts.len() + total_ctxs(
            defs.drop_first().take(i - 1),
        ));
    }
}

/// One more definition adds its own context count.
pub proof fn lemma_total_ctxs_take_succ(defs: Seq<SynDefV>, i: int)
    requires
        0 <= i < defs.len(),
    ensures
        total_ctxs(defs.take(i + 1)) == total_ctxs(defs.take(i)) + defs[i].contexts.len(),
{
    assert(defs.take(i + 1) =~= defs.take(i).push(defs[i]));
    lemma_total_ctxs_snoc(defs.take(i), defs[i]);
}

/// The owner of flat id `base + j`, with `base` the contexts before syntax
/// `i` and `j` inside syntax `i`, is `i`.
pub proof fn lemma_owner_idx_at(defs: Seq<SynDefV>, i: int, j: int)
    requires
        0 <= i < defs.len(),
        0 <= j < defs[i].contexts.len(),
    ensures
        owner_idx(defs, total_ctxs(defs.take(i)) + j) == i,
        0 <= total_ctxs(defs.take(i)) + j < total_ctxs(defs),
    decreases i,
{
    lemma_total_ctxs_split(defs, i);
    lemma_total_ctxs_split(defs.skip(i), 1);
    assert(defs.skip(i).take(1) =~= seq![defs[i]]);
    assert(total_ctxs(seq![defs[i]]) == defs[i].contexts.len() + total_ctxs(
        seq![defs[i]].drop_first(),
    ));
    assert(seq![defs[i]].drop_first() =~= Seq::<SynDefV>::empty());
    if i == 0 {
        assert(defs.take(0) =~= Seq::<SynDefV>::empty());
    } else {
        lemma_owner_idx_at(defs.drop_first(), i - 1, j);
        assert(defs.take(i).drop_first() =~= defs.drop_first().take(i - 1));
        assert(total_ctxs(defs.take(i)) == defs[0].contexts.len() + total_ctxs(
            defs.drop_first().take(i - 1),
        ));
        lemma_total_ctxs_split(defs.take(i), 1);
    }
}

/// Where the assigned context table holds syntax `i`'s `j`-th sorted context.
pub proof fn lemma_assign_ctxs_at(defs: Seq<SynDefV>, i: int, j: int)
    requires
        0 <= i < defs.len(),
        0 <= j < defs[i].contexts.len(),
    ensures
        assign_ctxs(defs).len() == total_ctxs(defs),
        0 <= total_ctxs(defs.take(i)) + j < total_ctxs(defs),
        assign_ctxs(defs)[total_ctxs(defs.take(i)) + j] == sort_named_ctxs(defs[i].contexts)[j].1,
    decreases i,
{
    lemma_assign_ctxs_len(defs);
    lemma_owner_idx_at(defs, i, j);
    lemma_sort_len(defs[i].contexts);
    if i == 0 {
        assert(defs.take(0) =~= Seq::<SynDefV>::empty());
        assert(assign_ctxs(defs) == sort_named_ctxs(defs[0].contexts).map_values(
            |p: (Seq<char>, ContextV)| p.1,
        ) + assign_ctxs(defs.drop_first()));
    } else {
        lemma_assign_ctxs_at(defs.drop_first(), i - 1, j);
        assert(defs.take(i).drop_first() =~= defs.drop_first().take(i - 1));
        assert(total_ctxs(defs.take(i)) == defs[0].contexts.len() + total_ctxs(
            defs.drop_first().take(i - 1),
        ));
        lemma_sort_len(defs[0].contexts);
        assert(assign_ctxs(defs) == sort_named_ctxs(defs[0].contexts).map_values(
            |p: (Seq<char>, ContextV)| p.1,
        ) + assign_ctxs(defs.drop_first()));
        assert(assign_ctxs(defs)[total_ctxs(defs.take(i)) + j] == assign_ctxs(
            defs.drop_first(),
        )[total_ctxs(defs.drop_first().take(i - 1)) + j]);
    }
}

/// Every id assigned to a syntax's map is a valid index into the assigned
/// context table.
pub proof fn lemma_assign_maps_bounds(defs: Seq<SynDefV>)
    ensures
        forall|i: int, j: int|
            0 <= i < defs.len() && 0 <= j < (#[trigger] assign_refs(defs, 0)[i]).contexts.len()
                ==> 0 <= (#[trigger] assign_refs(defs, 0)[i].contexts[j]).1 < total_ctxs(defs),
{
    lemma_assign_refs_struct(defs, 0);
    assert forall|i: int, j: int|
        0 <= i < defs.len() && 0 <= j < (#[trigger] assign_refs(defs, 0)[i]).contexts.len()
        implies 0 <= (#[trigger] assign_refs(defs, 0)[i].contexts[j]).1 < total_ctxs(defs) by {
        lemma_sort_len(defs[i].contexts);
        lemma_owner_idx_at(defs, i, j);
    }
}

/// Number of `false` entries in a visited map (the measure of the closure
/// computation).
pub open spec fn count_false(s: Seq<bool>) -> nat
    decreases s.len(),
{
    if s.len() == 0 {
        0
    } else {
        (if s[0] {
            0nat
        } else {
            1nat
        }) + count_false(s.drop_first())
    }
}

pub proof fn lemma_count_false_update(s: Seq<bool>, i: int)
    requires
        0 <= i < s.len(),
        !s[i],
    ensures
        count_false(s.update(i, true)) < count_false(s),
    decreases s.len(),
{
    if i == 0 {
        assert(s.update(0, true).drop_first() =~= s.drop_first());
    } else {
        assert(s.update(i, true).drop_first() =~= s.drop_first().update(i - 1, true));
        lemma_count_false_update(s.drop_first(), i - 1);
    }
}

// ---------------------------------------------------------------------------
// the full model
// ---------------------------------------------------------------------------
/// The final form of flat context `k`, owned by syntax `syn`: patterns are
/// linked, and the syntax's prototype is attached unless the context opts
/// out or is itself reachable from the prototype.
pub open spec fn linked_ctx(
    pre: Seq<ContextV>,
    syn: SynRefV,
    syns: Seq<SynRefV>,
    k: int,
) -> ContextV {
    let c = pre[k];
    let prototype = match map_lookup(syn.contexts, "prototype"@) {
        Option::Some(pr) => if c.meta_include_prototype && !reachable(pre, syn.contexts, pr, k) {
            Option::Some(pr)
        } else {
            c.prototype
        },
        Option::None => c.prototype,
    };
    ContextV {
        prototype,
        patterns: c.patterns.map_values(|p: PatternV| link_pat(p, syn, syns)),
        ..c
    }
}

pub open spec fn build_ctxs(defs: Seq<SynDefV>) -> Seq<ContextV> {
    let refs = assign_refs(defs, 0);
    let pre = assign_ctxs(defs);
    Seq::new(pre.len(), |k: int| linked_ctx(pre, refs[owner_idx(defs, k)], refs, k))
}

/// The whole of `build()`: a function of the builder's contents alone.
pub open spec fn build_v(b: BuilderV) -> SyntaxSetV {
    SyntaxSetV {
        syntaxes: assign_refs(b.syntaxes, 0),
        contexts: build_ctxs(b.syntaxes),
        path_syntaxes: b.path_syntaxes,
    }
}

} // verus!
