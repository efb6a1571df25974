use syntect::scope::Scope;
use syntect::syntax_definition::{
    Context, ContextReference, MatchOperation, MatchPattern, Pattern, SyntaxDefinition,
};
use syntect::syntax_set::{SyntaxSet, SyntaxSetBuilder};

fn match_pattern(regex: &str, operation: MatchOperation) -> Pattern {
    Pattern::Match(MatchPattern {
        regex_str: regex.to_string(),
        captures: Vec::new(),
        operation,
        with_prototype: None,
    })
}

fn context(patterns: Vec<Pattern>) -> Context {
    let mut c = Context::new();
    c.patterns = patterns;
    c
}

fn simple_syntax(
    name: &str,
    ext: &str,
    scope: &str,
    contexts: Vec<(&str, Context)>,
) -> SyntaxDefinition {
    SyntaxDefinition {
        name: name.to_string(),
        file_extensions: vec![ext.to_string()],
        scope: Scope::new(scope),
        first_line_match: None,
        hidden: false,
        variables: Vec::new(),
        contexts: contexts
            .into_iter()
            .map(|(n, c)| (n.to_string(), c))
            .collect(),
    }
}

fn syntax_a() -> SyntaxDefinition {
    simple_syntax(
        "A",
        "a",
        "source.a",
        vec![(
            "main",
            context(vec![
                match_pattern("a", MatchOperation::NoOp),
                match_pattern(
                    "go_b",
                    MatchOperation::Push(vec![ContextReference::ByScope {
                        scope: Scope::new("source.b"),
                        sub_context: Some("main".to_string()),
                    }]),
                ),
            ]),
        )],
    )
}

fn syntax_b() -> SyntaxDefinition {
    simple_syntax(
        "B",
        "b",
        "source.b",
        vec![("main", context(vec![match_pattern("b", MatchOperation::NoOp)]))],
    )
}

/// The id that the second pattern of A's `main` pushes, after linking.
fn a_push_target(ss: &SyntaxSet) -> usize {
    let a = ss.find_syntax_by_extension("a").unwrap();
    let main_id = a.context_id("main").unwrap();
    let main = ss.get_context(&main_id);
    match &main.patterns[1] {
        Pattern::Match(mp) => match &mp.operation {
            MatchOperation::Push(refs) => match &refs[0] {
                ContextReference::Direct(id) => id.index(),
                other => panic!("expected a Direct reference, got {:?}", other),
            },
            other => panic!("expected a Push operation, got {:?}", other),
        },
        other => panic!("expected a match pattern, got {:?}", other),
    }
}

#[test]
fn can_clone() {
    let cloned_syntax_set = {
        let mut builder = SyntaxSetBuilder::new();
        builder.add_syntax(syntax_a());
        builder.add_syntax(syntax_b());

        let syntax_set_original = builder.build();
        syntax_set_original.clone()
        // Note: The original syntax set is dropped
    };

    // cross-syntax linking survived the clone: A's `go_b` pushes B's `main`
    let b = cloned_syntax_set.find_syntax_by_name("B").unwrap();
    let b_main = b.context_id("main").unwrap().index();
    assert_eq!(a_push_target(&cloned_syntax_set), b_main);
}

#[test]
fn can_add_more_syntaxes_with_builder() {
    let syntax_set_original = {
        let mut builder = SyntaxSetBuilder::new();
        builder.add_syntax(syntax_a());
        builder.add_syntax(syntax_b());
        builder.build()
    };

    let mut builder = syntax_set_original.into_builder();

    let syntax_c = simple_syntax(
        "C",
        "c",
        "source.c",
        vec![(
            "main",
            context(vec![
                match_pattern("c", MatchOperation::NoOp),
                match_pattern(
                    "go_a",
                    MatchOperation::Push(vec![ContextReference::ByScope {
                        scope: Scope::new("source.a"),
                        sub_context: Some("main".to_string()),
                    }]),
                ),
            ]),
        )],
    );

    builder.add_syntax(syntax_c);

    let syntax_set = builder.build();

    // C's `go_a` links to A's main; A's `go_b` still links to B's main
    let c = syntax_set.find_syntax_by_extension("c").unwrap();
    let c_main = syntax_set.get_context(&c.context_id("main").unwrap());
    let a = syntax_set.find_syntax_by_extension("a").unwrap();
    let a_main = a.context_id("main").unwrap().index();
    match &c_main.patterns[1] {
        Pattern::Match(mp) => match &mp.operation {
            MatchOperation::Push(refs) => match &refs[0] {
                ContextReference::Direct(id) => assert_eq!(id.index(), a_main),
                other => panic!("expected a Direct reference, got {:?}", other),
            },
            other => panic!("expected a Push operation, got {:?}", other),
        },
        other => panic!("expected a match pattern, got {:?}", other),
    }
    let b = syntax_set.find_syntax_by_name("B").unwrap();
    let b_main = b.context_id("main").unwrap().index();
    assert_eq!(a_push_target(&syntax_set), b_main);
}

#[test]
fn is_sync() {
    check_sync::<SyntaxSet>();
}

#[test]
fn is_send() {
    check_send::<SyntaxSet>();
}

fn check_send<T: Send>() {}

fn check_sync<T: Sync>() {}

#[test]
fn plain_text_fallback() {
    let mut builder = SyntaxSetBuilder::new();
    builder.load_plain_text_syntax();
    let ss = builder.build();
    let syntax = match ss.find_syntax_by_token("rs") {
        Some(s) => s,
        None => ss.find_syntax_plain_text(),
    };
    assert_eq!(syntax.name, "Plain Text");
    assert_eq!(syntax.file_extensions, vec!["txt".to_string()]);
    assert_eq!(ss.find_syntax_by_extension("txt").unwrap().name, "Plain Text");
}

#[test]
fn finds_by_first_line() {
    let mut js = simple_syntax("JavaScript", "js", "source.js", vec![("main", context(vec![]))]);
    js.first_line_match = Some(r"\bnode\b".to_string());
    let mut c = simple_syntax("C", "c", "source.c", vec![("main", context(vec![]))]);
    c.first_line_match = Some(r"-\*- Mode: C -\*-".to_string());

    let mut builder = SyntaxSetBuilder::new();
    builder.add_syntax(js);
    builder.add_syntax(c);
    let mut ss = builder.build();

    assert_eq!(
        ss.find_syntax_by_first_line("#!/usr/bin/env node").unwrap().name,
        "JavaScript"
    );
    assert_eq!(
        ss.find_syntax_by_first_line("lol -*- Mode: C -*- such line").unwrap().name,
        "C"
    );
    assert!(ss.find_syntax_by_first_line("derp derp hi lol").is_none());
    // the cache is filled once and keeps answering
    assert_eq!(
        ss.find_syntax_by_first_line("#!/usr/bin/env node").unwrap().name,
        "JavaScript"
    );
}

#[test]
fn finds_by_path() {
    let mut builder = SyntaxSetBuilder::new();
    builder.add_syntax_with_path(
        "Packages/Rust/Rust.sublime-syntax".to_string(),
        simple_syntax("Rust", "rs", "source.rust", vec![("main", context(vec![]))]),
    );
    let ss = builder.build();

    assert_eq!(
        ss.find_syntax_by_path("Packages/Rust/Rust.sublime-syntax").unwrap().name,
        "Rust"
    );
    assert_eq!(
        ss.find_syntax_by_path("Rust/Rust.sublime-syntax").unwrap().name,
        "Rust"
    );
    // a suffix that is not preceded by a separator never matches
    assert!(ss.find_syntax_by_path("ust.sublime-syntax").is_none());
    assert!(ss.find_syntax_by_path("Other/Rust.sublime-syntax").is_none());
}

#[test]
fn token_prefers_extension_over_name() {
    // one syntax is *named* "abc", a later one *has the extension* "abc"
    let named = simple_syntax("abc", "x", "source.x", vec![("main", context(vec![]))]);
    let with_ext = simple_syntax("Other", "abc", "source.y", vec![("main", context(vec![]))]);
    let mut builder = SyntaxSetBuilder::new();
    builder.add_syntax(named);
    builder.add_syntax(with_ext);
    let ss = builder.build();

    assert_eq!(ss.find_syntax_by_token("abc").unwrap().name, "Other");
    // name matching is ASCII case-insensitive
    assert_eq!(ss.find_syntax_by_token("ABC").unwrap().name, "abc");
    assert!(ss.find_syntax_by_token("nope").is_none());
}

#[test]
fn lookups_by_scope_and_name() {
    let mut builder = SyntaxSetBuilder::new();
    builder.add_syntax(syntax_a());
    builder.add_syntax(syntax_b());
    let ss = builder.build();

    assert_eq!(
        ss.find_syntax_by_scope(&Scope::new("source.b")).unwrap().name,
        "B"
    );
    assert_eq!(ss.find_syntax_index_by_scope(&Scope::new("source.a")), Some(0));
    assert_eq!(ss.find_syntax_index_by_name("B"), Some(1));
    assert!(ss.find_syntax_by_name("b").is_none());
    assert_eq!(ss.syntaxes().len(), 2);
    assert_eq!(ss.get_syntax(0).name, "A");
}

#[test]
fn building_is_deterministic() {
    let mut builder = SyntaxSetBuilder::new();
    builder.add_syntax(syntax_a());
    builder.add_syntax(syntax_b());
    let twin = builder.clone();
    let s1 = builder.build();
    let s2 = twin.build();

    assert_eq!(s1.syntaxes().len(), s2.syntaxes().len());
    for (a, b) in s1.syntaxes().iter().zip(s2.syntaxes().iter()) {
        assert_eq!(a.name, b.name);
        for (x, y) in a.contexts.iter().zip(b.contexts.iter()) {
            assert_eq!(x.0, y.0);
            assert_eq!(x.1.index(), y.1.index());
        }
    }
    assert_eq!(a_push_target(&s1), a_push_target(&s2));
}

#[test]
fn rebuild_round_trip_keeps_lookups() {
    let mut builder = SyntaxSetBuilder::new();
    builder.add_syntax(syntax_a());
    builder.add_syntax(syntax_b());
    let first = builder.build();

    let again = first.into_builder().build();

    assert_eq!(again.find_syntax_by_extension("a").unwrap().name, "A");
    assert_eq!(again.find_syntax_by_extension("b").unwrap().name, "B");
    assert_eq!(
        again.find_syntax_by_scope(&Scope::new("source.a")).unwrap().name,
        "A"
    );
    let b_main = again
        .find_syntax_by_name("B")
        .unwrap()
        .context_id("main")
        .unwrap()
        .index();
    assert_eq!(a_push_target(&again), b_main);
}

#[test]
fn prototype_attachment() {
    // prototype includes `helper`; `main` and `quiet` are ordinary contexts,
    // `quiet` opts out of the implicit prototype.
    let proto = context(vec![Pattern::Include(ContextReference::Named(
        "helper".to_string(),
    ))]);
    let helper = context(vec![match_pattern("h", MatchOperation::NoOp)]);
    let main = context(vec![match_pattern("m", MatchOperation::NoOp)]);
    let mut quiet = context(vec![match_pattern("q", MatchOperation::NoOp)]);
    quiet.meta_include_prototype = false;

    let def = simple_syntax(
        "P",
        "p",
        "source.p",
        vec![
            ("main", main),
            ("prototype", proto),
            ("helper", helper),
            ("quiet", quiet),
        ],
    );
    let mut builder = SyntaxSetBuilder::new();
    builder.add_syntax(def);
    let ss = builder.build();

    let syn = ss.find_syntax_by_name("P").unwrap();
    let proto_id = syn.context_id("prototype").unwrap();

    let main_ctx = ss.get_context(&syn.context_id("main").unwrap());
    match &main_ctx.prototype {
        Some(id) => assert_eq!(id.index(), proto_id.index()),
        None => panic!("main should inherit the prototype"),
    }

    // nothing the prototype reaches inherits it, nor does the prototype
    let helper_ctx = ss.get_context(&syn.context_id("helper").unwrap());
    assert!(helper_ctx.prototype.is_none());
    let proto_ctx = ss.get_context(&proto_id);
    assert!(proto_ctx.prototype.is_none());

    // opting out works
    let quiet_ctx = ss.get_context(&syn.context_id("quiet").unwrap());
    assert!(quiet_ctx.prototype.is_none());
}

#[test]
fn top_level_main_resolves() {
    let main = context(vec![match_pattern(
        "x",
        MatchOperation::SetContexts(vec![ContextReference::Named(
            "$top_level_main".to_string(),
        )]),
    )]);
    let def = simple_syntax("T", "t", "source.t", vec![("main", main)]);
    let mut builder = SyntaxSetBuilder::new();
    builder.add_syntax(def);
    let ss = builder.build();

    let syn = ss.find_syntax_by_name("T").unwrap();
    let main_id = syn.context_id("main").unwrap();
    let main_ctx = ss.get_context(&main_id);
    match &main_ctx.patterns[0] {
        Pattern::Match(mp) => match &mp.operation {
            MatchOperation::SetContexts(refs) => match &refs[0] {
                ContextReference::Direct(id) => assert_eq!(id.index(), main_id.index()),
                other => panic!("placeholder should resolve, got {:?}", other),
            },
            other => panic!("expected SetContexts, got {:?}", other),
        },
        other => panic!("expected a match pattern, got {:?}", other),
    }
}

#[test]
fn unresolved_references_survive() {
    let main = context(vec![Pattern::Include(ContextReference::Named(
        "missing".to_string(),
    ))]);
    let def = simple_syntax("U", "u", "source.u", vec![("main", main)]);
    let mut builder = SyntaxSetBuilder::new();
    builder.add_syntax(def);
    let ss = builder.build();

    let syn = ss.find_syntax_by_name("U").unwrap();
    let main_ctx = ss.get_context(&syn.context_id("main").unwrap());
    match &main_ctx.patterns[0] {
        Pattern::Include(ContextReference::Named(s)) => assert_eq!(s, "missing"),
        other => panic!("unresolved reference should survive, got {:?}", other),
    }
}

#[test]
fn contexts_are_sorted_by_name() {
    let def = simple_syntax(
        "S",
        "s",
        "source.s",
        vec![
            ("zeta", context(vec![])),
            ("alpha", context(vec![])),
            ("main", context(vec![])),
        ],
    );
    let mut builder = SyntaxSetBuilder::new();
    builder.add_syntax(def);
    let ss = builder.build();

    let syn = ss.find_syntax_by_name("S").unwrap();
    let names: Vec<&str> = syn.contexts.iter().map(|p| p.0.as_str()).collect();
    assert_eq!(names, vec!["alpha", "main", "zeta"]);
    let ids: Vec<usize> = syn.contexts.iter().map(|p| p.1.index()).collect();
    assert_eq!(ids, vec![0, 1, 2]);
}

#[test]
fn scope_prefix_comparison() {
    let a = Scope::new("source.ruby");
    let b = Scope::new("source.ruby.rails");
    let c = Scope::new("source.rubyx");
    assert!(a.is_prefix_of(&b));
    assert!(a.is_prefix_of(&a));
    assert!(!a.is_prefix_of(&c));
    assert!(!b.is_prefix_of(&a));
    assert!(a.eq_scope(&Scope::new("source.ruby")));
    assert!(!a.eq_scope(&b));
}

#[test]
fn whole_file_names_as_extensions() {
    // grammars may list whole file names among their extensions
    let cmake = simple_syntax("CMake", "cmake", "source.cmake", vec![("main", context(vec![]))]);
    let mut builder = SyntaxSetBuilder::new();
    let mut cmake = cmake;
    cmake.file_extensions.insert(0, "CMakeLists.txt".to_string());
    builder.add_syntax(cmake);
    builder.add_syntax(simple_syntax(
        "Bourne Again Shell (bash)",
        ".bashrc",
        "source.shell",
        vec![("main", context(vec![]))],
    ));
    let ss = builder.build();

    assert_eq!(ss.find_syntax_by_extension("CMakeLists.txt").unwrap().name, "CMake");
    assert_eq!(ss.find_syntax_by_extension("cmake").unwrap().name, "CMake");
    assert_eq!(
        ss.find_syntax_by_extension(".bashrc").unwrap().name,
        "Bourne Again Shell (bash)"
    );
    assert!(ss.find_syntax_by_extension("txt").is_none());
}
