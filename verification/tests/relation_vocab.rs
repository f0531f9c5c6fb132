//! The vocabulary of relations.
use arrow_kanban::item_type::ItemType;
use arrow_kanban::ontology::kanban_ttl;
use arrow_kanban::relation_vocab::{
    classes, classes_from, domain_allows, fallback_predicates, flat_column_for,
    lookup, names, parse_object_properties, parse_spec, predicates, resolve_type, type_from_id,
    validate_edge, vocabulary_from, EdgeError,
};

#[test]
fn the_vocabulary_covers_declared_predicates() {
    for p in [
        "related",
        "dependsOn",
        "implements",
        "spawns",
        "tests",
        "validates",
        "measures",
    ] {
        assert!(lookup(p).is_some(), "missing declared predicate: {p}");
    }
    for p in ["blocks", "parent"] {
        assert!(
            lookup(p).is_some(),
            "missing shape-referenced predicate: {p}"
        );
    }
}

#[test]
fn acf_dimension_is_not_a_relationship() {
    assert!(lookup("acfDimension").is_none());
}

#[test]
fn lookup_is_forgiving_about_cli_spelling() {
    assert_eq!(lookup("dependsOn").map(|p| p.name).as_deref(), Some("dependsOn"));
    assert_eq!(lookup("depends_on").map(|p| p.name).as_deref(), Some("dependsOn"));
    assert_eq!(lookup("depends-on").map(|p| p.name).as_deref(), Some("dependsOn"));
    assert_eq!(lookup("DEPENDSON").map(|p| p.name).as_deref(), Some("dependsOn"));
    assert!(lookup("nonsense").is_none());
}

#[test]
fn the_research_trio_is_expressible() {
    assert!(
        validate_edge(
            "validates",
            "EXPR-1",
            "experiment",
            "H-2",
            Some("hypothesis")
        )
        .is_ok()
    );
    assert!(validate_edge("measures", "M-3", "measure", "EXPR-1", Some("experiment")).is_ok());
    assert!(validate_edge("tests", "H-2", "hypothesis", "PAPER-4", Some("paper")).is_ok());
}

#[test]
fn measures_accepts_both_the_ontology_and_current_practice() {
    assert!(validate_edge("measures", "M-1", "measure", "EXPR-2", Some("experiment")).is_ok());
    assert!(validate_edge("measures", "M-1", "measure", "H-2", Some("hypothesis")).is_ok());
    assert!(validate_edge("measures", "M-1", "measure", "CH-9", Some("chore")).is_err());
}

#[test]
fn domain_and_range_are_enforced() {
    let e = validate_edge("implements", "CH-1", "chore", "VY-2", Some("voyage")).unwrap_err();
    assert!(matches!(e, EdgeError::BadDomain { .. }), "got {e:?}");
    let e =
        validate_edge("implements", "EX-1", "expedition", "CH-2", Some("chore")).unwrap_err();
    assert!(matches!(e, EdgeError::BadRange { .. }), "got {e:?}");
}

#[test]
fn an_unresolvable_target_skips_range_validation_rather_than_failing() {
    assert!(validate_edge("validates", "EXPR-1", "experiment", "H-999", None).is_ok());
    assert!(validate_edge("implements", "CH-1", "chore", "VY-999", None).is_err());
}

#[test]
fn self_edges_are_refused() {
    let e =
        validate_edge("related", "EX-1", "expedition", "EX-1", Some("expedition")).unwrap_err();
    assert!(matches!(e, EdgeError::SelfEdge { .. }));
    assert!(
        validate_edge("related", "EX-1", "expedition", "ex-1", Some("expedition")).is_err()
    );
}

#[test]
fn unknown_predicates_name_the_alternatives() {
    let e =
        validate_edge("frobnicates", "EX-1", "expedition", "VY-2", Some("voyage")).unwrap_err();
    match &e {
        EdgeError::UnknownPredicate { known, given } => {
            assert_eq!(given, "frobnicates");
            assert!(
                known.contains(&"implements".to_string()),
                "the error should list real options"
            );
        }
        other => panic!("expected UnknownPredicate, got {other:?}"),
    }
    let msg = e.message();
    assert!(
        msg.contains("frobnicates"),
        "message should name the bad predicate: {msg}"
    );
    assert!(
        msg.contains("implements"),
        "message should list known predicates: {msg}"
    );
}

#[test]
fn spec_parsing_splits_on_the_first_colon_only() {
    assert_eq!(
        parse_spec("implements:VY-1234"),
        Some(("implements".to_string(), "VY-1234".to_string()))
    );
    assert_eq!(parse_spec(" validates : H-5 "), Some(("validates".to_string(), "H-5".to_string())));
    assert_eq!(parse_spec("related:NS:ID-7"), Some(("related".to_string(), "NS:ID-7".to_string())));
    assert_eq!(parse_spec("noseparator"), None);
    assert_eq!(parse_spec("implements:"), None);
    assert_eq!(parse_spec(":VY-1"), None);
}

#[test]
fn only_the_two_legacy_predicates_project_to_flat_columns() {
    assert_eq!(flat_column_for("related"), Some("related"));
    assert_eq!(flat_column_for("dependsOn"), Some("depends_on"));
    assert_eq!(flat_column_for("depends_on"), Some("depends_on"));
    assert_eq!(flat_column_for("implements"), None);
    assert_eq!(flat_column_for("validates"), None);
}

#[test]
fn ids_resolve_to_types_by_prefix() {
    assert_eq!(type_from_id("EX-6109").as_deref(), Some("expedition"));
    assert_eq!(type_from_id("VY-5855").as_deref(), Some("voyage"));
    assert_eq!(type_from_id("CA-6256").as_deref(), Some("campaign"));
    assert_eq!(type_from_id("CH-1").as_deref(), Some("chore"));
    assert_eq!(type_from_id("H-5924").as_deref(), Some("hypothesis"));
    assert_eq!(type_from_id("EXPR-6073").as_deref(), Some("experiment"));
    assert_eq!(type_from_id("M-6072").as_deref(), Some("measure"));
    assert_eq!(type_from_id("PAPER-122").as_deref(), Some("paper"));
    assert_eq!(type_from_id("FT-6256").as_deref(), Some("feature"));
    assert_eq!(type_from_id("FEAT-1").as_deref(), Some("feature"));
    assert_eq!(type_from_id("WAT-1").as_deref(), None);
}

#[test]
fn every_item_type_prefix_round_trips_through_type_from_id() {
    for t in ItemType::DEV.iter().chain(ItemType::RESEARCH.iter()) {
        let id = format!("{}-1", t.prefix());
        assert_eq!(
            type_from_id(&id).as_deref(),
            Some(t.as_str()),
            "ItemType::{t:?} (prefix '{}') has NO type_from_id arm — an unresolvable \
             {id} would type as None and silently skip range validation",
            t.prefix()
        );
    }
}

#[test]
fn inverses_are_declared_and_mutually_consistent() {
    let d = lookup("dependsOn").unwrap();
    let b = lookup("blocks").unwrap();
    assert_eq!(d.inverse.as_deref(), Some("blocks"));
    assert_eq!(b.inverse.as_deref(), Some("dependsOn"));
    let i = lookup("implements").unwrap();
    let s = lookup("spawns").unwrap();
    assert_eq!(i.inverse.as_deref(), Some("spawns"));
    assert_eq!(s.inverse.as_deref(), Some("implements"));
    for p in predicates() {
        if let Some(inv) = &p.inverse {
            let q = lookup(inv)
                .unwrap_or_else(|| panic!("{} names a missing inverse {inv}", p.name));
            assert_eq!(q.inverse.as_deref(), Some(p.name.as_str()), "{} and {inv} disagree", p.name);
        }
    }
}

#[test]
fn every_fallback_predicate_is_pinned_in_the_ttl() {
    let loaded = parse_object_properties(&kanban_ttl()).expect("embedded kanban.ttl parses");
    assert!(
        loaded.len() >= fallback_predicates().len(),
        "the .ttl lost predicates: ttl={:?} fallback={:?}",
        loaded.iter().map(|p| p.name.clone()).collect::<Vec<_>>(),
        fallback_predicates()
            .iter()
            .map(|p| p.name.clone())
            .collect::<Vec<_>>()
    );
    for f in &fallback_predicates() {
        let l = loaded
            .iter()
            .find(|p| p.name == f.name)
            .unwrap_or_else(|| panic!("'{}' missing from the .ttl", f.name));
        assert_eq!(l.domain, f.domain, "'{}' domain differs", f.name);
        assert_eq!(l.range, f.range, "'{}' range differs", f.name);
        assert_eq!(l.inverse, f.inverse, "'{}' inverse differs", f.name);
    }
}

#[test]
fn partof_membership_pair_is_loaded_from_data_only() {
    for name in ["partOf", "hasMember"] {
        assert!(
            fallback_predicates().iter().all(|p| p.name != name),
            "'{name}' must NOT be compiled in — it proves the .ttl is the source"
        );
    }
    let p = lookup("partOf").expect("partOf loaded from kanban.ttl");
    assert_eq!(
        p.domain,
        &[] as &[&str],
        "membership crosses types: any → any"
    );
    assert_eq!(p.range, &[] as &[&str]);
    assert_eq!(p.inverse.as_deref(), Some("hasMember"));
    let h = lookup("hasMember").expect("hasMember loaded from kanban.ttl");
    assert_eq!(h.inverse.as_deref(), Some("partOf"));
    assert_eq!(lookup("part_of").map(|p| p.name).as_deref(), Some("partOf"));
    assert_eq!(lookup("part-of").map(|p| p.name).as_deref(), Some("partOf"));
    assert!(validate_edge("partOf", "VY-1", "voyage", "CAMP-9", None).is_ok());
    assert!(
        validate_edge("partOf", "VY-1", "voyage", "VY-2", Some("voyage")).is_ok(),
        "voyage → campaign-node-as-voyage membership must validate"
    );
    assert!(validate_edge("memberOfCampaign", "VY-1", "voyage", "VY-2", None).is_err());
    assert_eq!(flat_column_for("partOf"), None);
    assert_eq!(flat_column_for("hasMember"), None);
}

#[test]
fn decision_obligation_pairs_are_loaded_from_data_only() {
    let pairs = [
        ("closes", "closedBy"),
        ("supersedes", "supersededBy"),
        ("leavesRemainder", "remainderOf"),
        ("ruledBy", "scopes"),
    ];
    for (fwd, inv) in pairs {
        for name in [fwd, inv] {
            assert!(
                fallback_predicates().iter().all(|p| p.name != name),
                "'{name}' must NOT be compiled in — it proves the .ttl is the source"
            );
        }
        let p = lookup(fwd).unwrap_or_else(|| panic!("'{fwd}' not loaded from kanban.ttl"));
        if fwd == "closes" {
            assert_eq!(p.domain, &["proposal"], "'closes' is Proposal → Item");
            assert_eq!(p.range, &[] as &[&str]);
        } else {
            assert_eq!(p.domain, &[] as &[&str], "'{fwd}' is any -> any (kb:Item)");
            assert_eq!(p.range, &[] as &[&str]);
        }
        assert_eq!(p.inverse.as_deref(), Some(inv), "'{fwd}' names its inverse");
        let q = lookup(inv).unwrap_or_else(|| panic!("'{inv}' not loaded from kanban.ttl"));
        assert_eq!(q.inverse.as_deref(), Some(fwd), "'{inv}' points back at '{fwd}'");
        if fwd == "closes" {
            assert_eq!(q.range, &["proposal"], "'closedBy' range is Proposal");
        }
    }
    assert_eq!(type_from_id("PROP-1").as_deref(), Some("proposal"));
    assert!(validate_edge("closes", "PROP-1", "proposal", "CH-2", Some("chore")).is_ok());
    assert!(
        validate_edge("closes", "CH-9", "chore", "VY-2", Some("voyage")).is_err(),
        "a Chore must no longer be able to 'close' a Voyage"
    );
    assert!(validate_edge("remainderOf", "CH-3", "chore", "PROP-1", None).is_ok());
    assert!(validate_edge("closesish", "PROP-1", "chore", "CH-2", None).is_err());
    for (fwd, inv) in pairs {
        assert_eq!(flat_column_for(fwd), None);
        assert_eq!(flat_column_for(inv), None);
    }
}

#[test]
fn ex7101_entity_classes_are_loaded_from_data_only() {
    for name in ["proposal", "comment", "run", "experimentrun", "ciresult"] {
        assert!(
            classes().iter().any(|c| c.name == name),
            "'{name}' not loaded from kanban.ttl — the class block is missing or unparsed"
        );
        assert!(
            !ItemType::DEV
                .iter()
                .chain(ItemType::RESEARCH.iter())
                .any(|t| t.as_str() == name),
            "'{name}' must NOT be a board ItemType — EntityClass is the non-board register"
        );
    }
    assert_eq!(type_from_id("PROP-2001").as_deref(), Some("proposal"));
    assert_eq!(type_from_id("CMT-CH-1-99").as_deref(), Some("comment"));
    assert_eq!(
        type_from_id("EX-1").as_deref(),
        Some("expedition"),
        "compiled arms unchanged"
    );
    assert_eq!(
        type_from_id("WAT-1").as_deref(),
        None,
        "unknown prefixes still resolve to None"
    );
    let c = lookup("commentOn").expect("commentOn loaded");
    assert_eq!(c.domain, &["comment"]);
    let e = lookup("evaluates").expect("evaluates loaded");
    assert_eq!(e.domain, &["ciresult"]);
    assert_eq!(e.range, &["proposal"]);
    let t = lookup("transitions").expect("transitions loaded");
    assert_eq!(t.domain, &["run"]);
    assert!(validate_edge("commentOn", "CH-1", "chore", "CH-2", Some("chore")).is_err());
    assert!(classes().iter().all(|c| c.name != "watnot"));
}

#[test]
fn live_vocabulary_is_the_ttl_loaded_set() {
    let fresh = parse_object_properties(&kanban_ttl()).expect("embedded kanban.ttl parses");
    let live = predicates();
    assert_eq!(live.len(), fresh.len());
    for f in &fresh {
        assert!(
            live.iter()
                .any(|p| p.name == f.name && p.doc == f.doc && p.inverse == f.inverse),
            "'{}' not served by predicates()",
            f.name
        );
    }
}

#[test]
fn parser_fails_closed_on_malformed_input() {
    assert!(
        parse_object_properties("kb:x a owl:ObjectProperty ;\n  rdfs:label \"x\"").is_err()
    );
    assert!(
        parse_object_properties(
            "kb:x a owl:ObjectProperty ; rdfs:domain foaf:Agent ; rdfs:label \"x\" ."
        )
        .is_err()
    );
    assert!(
        parse_object_properties(
            "kb:x a owl:ObjectProperty ; owl:inverseOf kb:ghost ; rdfs:label \"x\" ."
        )
        .is_err()
    );
    assert!(parse_object_properties("kb:x a owl:ObjectProperty ; rdfs:label \"x .").is_err());
}

#[test]
fn class_lists_map_item_to_any_and_commas_to_unions() {
    let v = parse_object_properties(
        "kb:x a owl:ObjectProperty ; rdfs:domain kb:Item ; rdfs:range kb:Experiment , kb:Hypothesis ; rdfs:label \"x\" .",
    )
    .expect("parses");
    assert_eq!(v[0].domain, &[] as &[&str], "kb:Item means ANY");
    assert_eq!(v[0].range, &["experiment", "hypothesis"]);
}

#[test]
fn non_object_property_statements_are_ignored() {
    let v = parse_object_properties(
        "kb:Item a owl:Class ; rdfs:label \"Item\" .\n\
         kb:status a owl:DatatypeProperty ; rdfs:domain kb:Item ; rdfs:label \"status\" .\n\
         kb:rel a owl:ObjectProperty ; rdfs:domain kb:Item ; rdfs:range kb:Item ; rdfs:label \"rel\" .",
    )
    .expect("parses");
    assert_eq!(v.len(), 1);
    assert_eq!(v[0].name, "rel");
}

#[test]
fn every_ttl_domain_and_range_names_a_real_item_type() {
    let mut known: Vec<String> = ItemType::DEV
        .iter()
        .chain(ItemType::RESEARCH.iter())
        .map(|t| t.as_str().to_string())
        .collect();
    known.extend(classes().into_iter().map(|c| c.name));
    assert!(
        known.contains(&"campaign".to_string()),
        "campaign is a type of the board"
    );
    for p in predicates() {
        for entry in p.domain.iter().chain(p.range.iter()) {
            assert!(
                known.contains(entry),
                "'{}' constrains on unknown item type '{entry}' — a dead constraint \
                 (typo in kanban.ttl?)",
                p.name
            );
        }
    }
}

#[test]
fn stored_edges_cannot_be_invalidated_by_the_loaded_vocab() {
    for flat in ["related", "dependsOn"] {
        let p = lookup(flat).unwrap_or_else(|| panic!("'{flat}' missing from vocab"));
        assert!(
            p.domain.is_empty() && p.range.is_empty(),
            "'{flat}' must stay unconstrained (any→any) — narrowing it would \
             retroactively invalidate stored flat edges"
        );
    }
    assert_eq!(lookup("depends_on").map(|p| p.name).as_deref(), Some("dependsOn"));
    assert_eq!(lookup("depends-on").map(|p| p.name).as_deref(), Some("dependsOn"));
    assert!(
        validate_edge("partOf", "VY-6244", "voyage", "EX-6245", None).is_ok(),
        "an unresolvable-target edge must remain acceptable (cross-board rule)"
    );
}

fn declared_object_properties(ttl: &str) -> usize {
    ttl.split('\n')
        .map(|l| l.split('#').next().unwrap_or(""))
        .collect::<Vec<_>>()
        .join("\n")
        .split(" .")
        .filter(|stmt| {
            let head = stmt.split(';').next().unwrap_or("").trim();
            let subject = head.split_whitespace().next().unwrap_or("");
            subject.starts_with("kb:") && head.contains("owl:ObjectProperty")
        })
        .count()
}

#[test]
fn loaded_predicate_count_matches_the_ontology_declaration_count() {
    let declared = declared_object_properties(&kanban_ttl());
    let loaded = predicates().len();

    assert!(
        declared >= fallback_predicates().len(),
        "the ontology must declare at least the compiled fallback set ({} declared, {} \
         compiled) — a smaller count means the counter is not seeing the declarations",
        declared,
        fallback_predicates().len()
    );

    assert_eq!(
        loaded, declared,
        "the loader produced {loaded} predicate(s) but ontology/kanban.ttl declares \
         {declared}. Neither number is hardcoded here: a mismatch means the loader and \
         the ontology genuinely disagree — most likely a parse the loader rejected (it \
         fails CLOSED to the compiled fallback) rather than a miscount."
    );
}

#[test]
fn refusals_say_what_is_allowed() {
    let e = validate_edge("implements", "CH-1", "chore", "VY-2", Some("voyage")).unwrap_err();
    let msg = e.message();
    assert!(msg.contains("implements"), "{msg}");
    assert!(msg.contains("chore"), "{msg}");
    assert!(msg.contains("expedition"), "{msg}");
    let e = validate_edge("related", "EX-1", "expedition", "EX-1", None).unwrap_err();
    assert!(e.message().contains("EX-1"));
}

#[test]
fn a_broken_ontology_leaves_the_built_in_vocabulary() {
    let broken = vocabulary_from("kb:x a owl:ObjectProperty ; rdfs:label \"x .");
    assert_eq!(broken.len(), fallback_predicates().len());
    let none = vocabulary_from("");
    assert_eq!(none.len(), fallback_predicates().len());
    assert!(classes_from("kb:x a owl:Class ;").iter().any(|c| c.name == "expedition"));
}

#[test]
fn types_come_from_the_store_or_the_prefix() {
    assert_eq!(resolve_type("EX-1", Some("chore")).as_deref(), Some("chore"));
    assert_eq!(resolve_type("EX-1", None).as_deref(), Some("expedition"));
    assert_eq!(resolve_type("WAT-1", None), None);
    assert_eq!(type_from_id("ex-1").as_deref(), Some("expedition"));
}

#[test]
fn domains_name_their_types() {
    assert!(domain_allows("implements", ItemType::Expedition));
    assert!(!domain_allows("implements", ItemType::Chore));
    assert!(domain_allows("related", ItemType::Paper));
    assert!(!domain_allows("frobnicates", ItemType::Paper));
    assert_eq!(names().len(), predicates().len());
}

#[test]
fn the_inverse_of_an_inverse_is_the_relation_itself() {
    let with_inverse: Vec<_> =
        predicates().into_iter().filter(|p| p.inverse.is_some()).collect();
    assert_eq!(with_inverse.len(), 14);
    for p in with_inverse {
        let other = lookup(p.inverse.as_deref().unwrap()).expect("the inverse is declared");
        assert_eq!(other.inverse, Some(p.name));
    }
    assert_eq!(lookup("rules").map(|p| p.name), None);
    assert_eq!(lookup("ruled-by").unwrap().inverse.as_deref(), Some("scopes"));
}
