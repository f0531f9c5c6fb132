//! Critical path, roadmap and worklist.
use std::collections::HashSet;

use arrow_kanban::critical_path::{
    agents_from_items, campaign_aggregate, compute_critical_path, fold_typed_voyage_memberships,
    format_campaign_roadmap, format_critical_path, format_roadmap, format_worklist,
    generate_worklist, group_by_voyage, parse_agent_capabilities, priority_rank,
    required_capabilities_from_tags, sort_key, truncate, CapabilityRouting, CriticalPathResult,
    ItemInfo,
};
use arrow_kanban::keyed::lookup;
use arrow_kanban::relations::RelationsStore;

fn depth_of(cp: &CriticalPathResult, id: &str) -> u32 {
    *lookup(&cp.depth, id).unwrap()
}

fn group_at(cp: &CriticalPathResult, level: u32) -> &Vec<String> {
    &cp.depth_groups.iter().find(|g| g.0 == level).unwrap().1
}

fn capabilities(map: &Vec<(String, Vec<String>)>, agent: &str) -> Option<HashSet<String>> {
    lookup(map, agent).map(|list| list.iter().cloned().collect())
}

fn make_items() -> Vec<ItemInfo> {
    vec![
        ItemInfo {
            id: "EX-1".into(),
            title: "Root task A".into(),
            item_type: "expedition".into(),
            status: "backlog".into(),
            priority: "critical".into(),
            assignee: "-".into(),
            related: vec!["VY-1".into()],
            depends_on: vec![],
            rank: None,
        },
        ItemInfo {
            id: "EX-2".into(),
            title: "Root task B".into(),
            item_type: "expedition".into(),
            status: "backlog".into(),
            priority: "high".into(),
            assignee: "DGX".into(),
            related: vec!["VY-1".into()],
            depends_on: vec![],
            rank: None,
        },
        ItemInfo {
            id: "EX-3".into(),
            title: "Depends on A".into(),
            item_type: "expedition".into(),
            status: "backlog".into(),
            priority: "high".into(),
            assignee: "-".into(),
            related: vec!["VY-1".into()],
            depends_on: vec!["EX-1".into()],
            rank: None,
        },
        ItemInfo {
            id: "EX-4".into(),
            title: "Depends on A and B".into(),
            item_type: "expedition".into(),
            status: "backlog".into(),
            priority: "critical".into(),
            assignee: "-".into(),
            related: vec!["VY-1".into()],
            depends_on: vec!["EX-1".into(), "EX-2".into()],
            rank: None,
        },
        ItemInfo {
            id: "EX-5".into(),
            title: "Depends on 3 and 4".into(),
            item_type: "expedition".into(),
            status: "backlog".into(),
            priority: "medium".into(),
            assignee: "-".into(),
            related: vec!["VY-1".into()],
            depends_on: vec!["EX-3".into(), "EX-4".into()],
            rank: None,
        },
        ItemInfo {
            id: "VY-1".into(),
            title: "Test Voyage".into(),
            item_type: "voyage".into(),
            status: "backlog".into(),
            priority: "critical".into(),
            assignee: "-".into(),
            related: vec![],
            depends_on: vec![],
            rank: None,
        },
        ItemInfo {
            id: "EX-6".into(),
            title: "Orphan task".into(),
            item_type: "expedition".into(),
            status: "backlog".into(),
            priority: "low".into(),
            assignee: "-".into(),
            related: vec![],
            depends_on: vec![],
            rank: None,
        },
        ItemInfo {
            id: "EX-99".into(),
            title: "Done task".into(),
            item_type: "expedition".into(),
            status: "done".into(),
            priority: "high".into(),
            assignee: "M5".into(),
            related: vec!["VY-1".into()],
            depends_on: vec![],
            rank: None,
        },
    ]
}

#[test]
fn test_topological_sort_ordering() {
    let items = make_items();
    let cp = compute_critical_path(&items).unwrap();

    let pos = |id: &str| cp.ordered.iter().position(|x| x == id).unwrap();
    assert!(pos("EX-1") < pos("EX-3"));
    assert!(pos("EX-1") < pos("EX-4"));
    assert!(pos("EX-2") < pos("EX-4"));
    assert!(pos("EX-3") < pos("EX-5"));
    assert!(pos("EX-4") < pos("EX-5"));
}

#[test]
fn test_depth_computation() {
    let items = make_items();
    let cp = compute_critical_path(&items).unwrap();

    assert_eq!(depth_of(&cp, "EX-1"), 0);
    assert_eq!(depth_of(&cp, "EX-2"), 0);
    assert_eq!(depth_of(&cp, "EX-3"), 1);
    assert_eq!(depth_of(&cp, "EX-4"), 1);
    assert_eq!(depth_of(&cp, "EX-5"), 2);
}

#[test]
fn test_ready_vs_blocked() {
    let items = make_items();
    let cp = compute_critical_path(&items).unwrap();

    assert!(cp.ready.contains(&"EX-1".to_string()));
    assert!(cp.ready.contains(&"EX-2".to_string()));
    assert!(cp.ready.contains(&"EX-6".to_string()));

    assert!(cp.blocked.contains(&"EX-3".to_string()));
    assert!(cp.blocked.contains(&"EX-4".to_string()));
    assert!(cp.blocked.contains(&"EX-5".to_string()));
}

#[test]
fn test_done_items_excluded() {
    let items = make_items();
    let cp = compute_critical_path(&items).unwrap();

    assert!(!cp.ordered.contains(&"EX-99".to_string()));
    assert!(!cp.ready.contains(&"EX-99".to_string()));
    assert!(!cp.blocked.contains(&"EX-99".to_string()));
}

#[test]
fn test_downstream_count() {
    let items = make_items();
    let cp = compute_critical_path(&items).unwrap();

    assert!(*lookup(&cp.downstream_count, "EX-1").unwrap() >= 3);
    assert_eq!(*lookup(&cp.downstream_count, "EX-5").unwrap(), 0);
}

#[test]
fn test_cycle_detection() {
    let items = vec![
        ItemInfo {
            id: "A".into(),
            title: "A".into(),
            item_type: "expedition".into(),
            status: "backlog".into(),
            priority: "-".into(),
            assignee: "-".into(),
            related: vec![],
            depends_on: vec!["B".into()],
            rank: None,
        },
        ItemInfo {
            id: "B".into(),
            title: "B".into(),
            item_type: "expedition".into(),
            status: "backlog".into(),
            priority: "-".into(),
            assignee: "-".into(),
            related: vec![],
            depends_on: vec!["A".into()],
            rank: None,
        },
    ];
    let result = compute_critical_path(&items);
    assert!(result.is_err());
    assert!(result.unwrap_err().contains("cycle"));
}

#[test]
fn test_voyage_grouping() {
    let items = make_items();
    let (groups, orphans) = group_by_voyage(&items);

    assert_eq!(groups.len(), 1);
    assert_eq!(groups[0].voyage_id, "VY-1");
    assert_eq!(groups[0].total_count, 6);
    assert_eq!(groups[0].done_count, 1);

    assert!(orphans.contains(&"EX-6".to_string()));
}

fn ex(id: &str) -> ItemInfo {
    ItemInfo {
        id: id.into(),
        title: id.into(),
        item_type: "expedition".into(),
        status: "backlog".into(),
        priority: "high".into(),
        assignee: "-".into(),
        related: vec![],
        depends_on: vec![],
        rank: None,
    }
}
fn vy(id: &str) -> ItemInfo {
    ItemInfo {
        item_type: "voyage".into(),
        ..ex(id)
    }
}

#[test]
fn fold_resolves_implements_edge_into_related() {
    let mut items = vec![ex("EX-9"), vy("VY-9")];
    let mut rels = RelationsStore::new();
    rels.add_relation("EX-9", "VY-9", "implements").unwrap();

    let (groups_before, orphans_before) = group_by_voyage(&items);
    let vy9_before = groups_before.iter().find(|g| g.voyage_id == "VY-9");
    assert_eq!(
        vy9_before.map(|g| g.total_count),
        Some(0),
        "the voyage is there but has no children before the fold"
    );
    assert!(orphans_before.contains(&"EX-9".to_string()));

    fold_typed_voyage_memberships(&mut items, &rels);
    assert!(
        items[0].related.contains(&"VY-9".to_string()),
        "implements target folded into related"
    );
    let (groups, orphans) = group_by_voyage(&items);
    assert_eq!(groups.len(), 1);
    assert_eq!(groups[0].voyage_id, "VY-9");
    assert_eq!(groups[0].total_count, 1, "EX-9 now counts toward VY-9");
    assert!(!orphans.contains(&"EX-9".to_string()));
}

#[test]
fn fold_resolves_spawns_edge_the_inverse_direction() {
    let mut items = vec![ex("EX-8"), vy("VY-8")];
    let mut rels = RelationsStore::new();
    rels.add_relation("VY-8", "EX-8", "spawns").unwrap();

    fold_typed_voyage_memberships(&mut items, &rels);
    assert!(items[0].related.contains(&"VY-8".to_string()));
    let (groups, _) = group_by_voyage(&items);
    assert_eq!(groups.len(), 1);
    assert_eq!(groups[0].total_count, 1);
}

#[test]
fn fold_does_not_double_count_when_flat_edge_also_present() {
    let mut ex7 = ex("EX-7");
    ex7.related = vec!["VY-7".into()];
    let mut items = vec![ex7, vy("VY-7")];
    let mut rels = RelationsStore::new();
    rels.add_relation("EX-7", "VY-7", "implements").unwrap();

    fold_typed_voyage_memberships(&mut items, &rels);
    assert_eq!(
        items[0].related.iter().filter(|r| *r == "VY-7").count(),
        1,
        "VY-7 appears once, not duplicated"
    );
    let (groups, _) = group_by_voyage(&items);
    assert_eq!(groups[0].total_count, 1, "counted once");
}

#[test]
fn fold_is_a_noop_without_voyages_or_edges() {
    let mut items = vec![ex("EX-1"), ex("EX-2")];
    fold_typed_voyage_memberships(&mut items, &RelationsStore::new());
    assert!(items.iter().all(|i| i.related.is_empty()));

    let mut items2 = vec![ex("EX-1"), vy("VY-1")];
    fold_typed_voyage_memberships(&mut items2, &RelationsStore::new());
    assert!(items2[0].related.is_empty());
}

#[test]
fn fold_campaign_aggregate_counts_implements_only_expedition() {
    let mut items = vec![ex("EX-9"), vy("VY-9")];
    let mut rels = RelationsStore::new();
    rels.add_relation("EX-9", "VY-9", "implements").unwrap();
    let members = vec!["VY-9".to_string()];

    let (_, _, total_before) = campaign_aggregate(&items, &members);
    assert_eq!(total_before, 0);

    fold_typed_voyage_memberships(&mut items, &rels);
    let (member_count, done, total) = campaign_aggregate(&items, &members);
    assert_eq!(member_count, 1);
    assert_eq!(total, 1, "the implements-only expedition now counts");
    assert_eq!(done, 0);
}

#[test]
fn test_depth_groups() {
    let items = make_items();
    let cp = compute_critical_path(&items).unwrap();

    assert!(group_at(&cp, 0).contains(&"EX-1".to_string()));
    assert!(group_at(&cp, 0).contains(&"EX-2".to_string()));

    assert!(group_at(&cp, 2).contains(&"EX-5".to_string()));
}

#[test]
fn test_worklist_generation() {
    let items = make_items();
    let cp = compute_critical_path(&items).unwrap();
    let agents = vec!["DGX".to_string(), "M5".to_string(), "Mini".to_string()];
    let worklist = generate_worklist(&items, &cp, &agents, &CapabilityRouting::default(), 3);

    assert_eq!(worklist.len(), 3);
    let dgx = &worklist[0];
    assert_eq!(dgx.agent, "DGX");
    assert!(dgx.items.iter().any(|i| i.id == "EX-2"));
}

#[test]
fn worklist_routes_capability_tagged_work_only_to_capable_agents() {
    let items = vec![ItemInfo {
        id: "EX-CAP".into(),
        title: "needs the accel capability".into(),
        item_type: "expedition".into(),
        status: "backlog".into(),
        priority: "high".into(),
        assignee: "-".into(),
        related: vec![],
        depends_on: vec![],
        rank: None,
    }];
    let cp = compute_critical_path(&items).unwrap();
    let agents = vec!["node-a".to_string(), "node-b".to_string()];

    let agent_capabilities = vec![("node-a".to_string(), vec!["accel".to_string()])];
    let routing = CapabilityRouting {
        item_requirements: vec![("EX-CAP".to_string(), vec!["accel".to_string()])],
        agent_capabilities,
    };

    let worklist = generate_worklist(&items, &cp, &agents, &routing, 3);
    let node_a = worklist.iter().find(|e| e.agent == "node-a").unwrap();
    let node_b = worklist.iter().find(|e| e.agent == "node-b").unwrap();

    assert!(
        node_a.items.iter().any(|i| i.id == "EX-CAP"),
        "a capable agent MUST be routed capability-tagged work"
    );
    assert!(
        !node_b.items.iter().any(|i| i.id == "EX-CAP"),
        "a non-capable agent must NOT be routed capability-tagged work"
    );

    let open = generate_worklist(&items, &cp, &agents, &CapabilityRouting::default(), 3);
    assert!(
        open.iter()
            .all(|e| e.items.iter().any(|i| i.id == "EX-CAP")),
        "with no capability config the item routes to every agent"
    );
}

#[test]
fn agent_can_take_wired_default_no_policy_routes_required_items_to_everyone() {
    let routing = CapabilityRouting {
        item_requirements: vec![("EX-CAP".to_string(), vec!["accel".to_string()])],
        agent_capabilities: vec![],
    };
    assert!(
        routing.agent_can_take("EX-CAP", "node-a"),
        "with requirements derived but NO provider policy, a required item must route to anyone"
    );
    assert!(
        routing.agent_can_take("EX-CAP", "node-z"),
        "...to EVERY agent — no policy means no capability constraint, not fail-closed"
    );
}

#[test]
fn worklist_wired_default_no_policy_does_not_starve_required_items() {
    let items = vec![ItemInfo {
        id: "EX-CAP".into(),
        title: "needs the accel capability".into(),
        item_type: "expedition".into(),
        status: "backlog".into(),
        priority: "high".into(),
        assignee: "-".into(),
        related: vec![],
        depends_on: vec![],
        rank: None,
    }];
    let cp = compute_critical_path(&items).unwrap();
    let agents = vec!["node-a".to_string(), "node-b".to_string()];

    let routing = CapabilityRouting {
        item_requirements: vec![("EX-CAP".to_string(), vec!["accel".to_string()])],
        agent_capabilities: vec![],
    };
    let worklist = generate_worklist(&items, &cp, &agents, &routing, 3);
    assert!(
        worklist
            .iter()
            .all(|e| e.items.iter().any(|i| i.id == "EX-CAP")),
        "a -required item with no provider policy must route to EVERY agent (no silent starvation)"
    );
}

#[test]
fn parse_agent_capabilities_unions_a_repeated_agent() {
    let map = parse_agent_capabilities("node-a=gpu;node-a=cuda");
    assert_eq!(
        capabilities(&map, "node-a"),
        Some(HashSet::from(["gpu".to_string(), "cuda".to_string()])),
        "repeated agent decls must union (gpu ∪ cuda), not last-wins to {{cuda}}"
    );
}

#[test]
fn required_capabilities_parses_the_required_suffix_grammar() {
    let tags = vec![
        "gpu-required".to_string(),
        "v20".to_string(),
        "cuda-required".to_string(),
        "-required".to_string(),
    ];
    let caps = required_capabilities_from_tags(&tags);
    assert_eq!(caps, vec!["gpu".to_string(), "cuda".to_string()]);
}

#[test]
fn parse_agent_capabilities_reads_the_flat_spec() {
    let map = parse_agent_capabilities(" node-a = gpu, cuda ; node-b = ; ");
    assert_eq!(
        capabilities(&map, "node-a"),
        Some(HashSet::from(["gpu".to_string(), "cuda".to_string()]))
    );
    assert_eq!(capabilities(&map, "node-b"), Some(HashSet::new()));
    assert_eq!(map.len(), 2);
    assert!(parse_agent_capabilities("").is_empty());
}

#[test]
fn engine_routing_hardcodes_no_roster_names() {
    const FORBIDDEN: &[&str] = &[
        "DGX", "DGX1", "DGX2", "M5", "Mini", "Air", "negaDGX", "negaM5", "negaMini",
    ];
    for name in FORBIDDEN {
        let shown = |agent: &str, assignee: &str| {
            let mut items = make_items();
            items[1].assignee = assignee.into();
            let cp = compute_critical_path(&items).unwrap();
            let routing = CapabilityRouting {
                item_requirements: vec![("EX-1".to_string(), vec!["gpu".to_string()])],
                agent_capabilities: vec![("node-a".to_string(), vec!["gpu".to_string()])],
            };
            let agents = vec![agent.to_string()];
            generate_worklist(&items, &cp, &agents, &routing, 5)
                .into_iter()
                .flat_map(|e| e.items)
                .map(|i| (i.id, i.title, i.blocked))
                .collect::<Vec<_>>()
        };
        assert_eq!(shown(name, "-"), shown("node-x", "-"), "{name}");
        assert_eq!(shown(name, name), shown("node-x", "node-x"), "{name}");
        assert_eq!(shown("node-y", name), shown("node-y", "node-x"), "{name}");
    }
}

#[test]
fn test_empty_items() {
    let items: Vec<ItemInfo> = vec![];
    let cp = compute_critical_path(&items).unwrap();
    assert!(cp.ordered.is_empty());
    assert!(cp.ready.is_empty());
    assert!(cp.blocked.is_empty());
}

#[test]
fn test_sort_key_orders_rank_before_priority() {
    let critical_unranked = ItemInfo {
        id: "A".into(),
        title: "critical, no rank".into(),
        item_type: "expedition".into(),
        status: "backlog".into(),
        priority: "critical".into(),
        assignee: "-".into(),
        related: vec![],
        depends_on: vec![],
        rank: None,
    };
    let low_rank1 = ItemInfo {
        id: "B".into(),
        title: "low, rank 1".into(),
        item_type: "expedition".into(),
        status: "backlog".into(),
        priority: "low".into(),
        assignee: "-".into(),
        related: vec![],
        depends_on: vec![],
        rank: Some(1),
    };
    let medium_rank3 = ItemInfo {
        id: "C".into(),
        title: "medium, rank 3".into(),
        item_type: "expedition".into(),
        status: "backlog".into(),
        priority: "medium".into(),
        assignee: "-".into(),
        related: vec![],
        depends_on: vec![],
        rank: Some(3),
    };

    let mut keys = [&critical_unranked, &low_rank1, &medium_rank3];
    keys.sort_by_key(|i| sort_key(i));

    assert_eq!(keys[0].id, "B", "rank=1 wins over rank=3 and unranked");
    assert_eq!(keys[1].id, "C", "rank=3 wins over unranked");
    assert_eq!(keys[2].id, "A", "unranked goes last even when critical");
}

#[test]
fn test_sort_key_falls_back_to_priority_when_unranked() {
    let critical = ItemInfo {
        id: "C".into(),
        title: "critical".into(),
        item_type: "expedition".into(),
        status: "backlog".into(),
        priority: "critical".into(),
        assignee: "-".into(),
        related: vec![],
        depends_on: vec![],
        rank: None,
    };
    let high = ItemInfo {
        id: "H".into(),
        title: "high".into(),
        item_type: "expedition".into(),
        status: "backlog".into(),
        priority: "high".into(),
        assignee: "-".into(),
        related: vec![],
        depends_on: vec![],
        rank: None,
    };

    let mut items = [&high, &critical];
    items.sort_by_key(|i| sort_key(i));
    assert_eq!(items[0].id, "C", "critical < high among unranked");
    assert_eq!(items[1].id, "H");
}

#[test]
fn test_ready_list_sorts_ranked_items_first() {
    let make = |id: &str, priority: &str, rank: Option<i32>| ItemInfo {
        id: id.into(),
        title: id.into(),
        item_type: "expedition".into(),
        status: "backlog".into(),
        priority: priority.into(),
        assignee: "-".into(),
        related: vec![],
        depends_on: vec![],
        rank,
    };
    let items = vec![
        make("EX-A", "critical", None),
        make("EX-B", "low", Some(1)),
        make("EX-C", "medium", Some(2)),
        make("EX-D", "high", None),
    ];
    let cp = compute_critical_path(&items).unwrap();
    assert_eq!(cp.ready.len(), 4);
    assert_eq!(cp.ready[0], "EX-B", "rank=1 first");
    assert_eq!(cp.ready[1], "EX-C", "rank=2 second");
    assert_eq!(cp.ready[2], "EX-A");
    assert_eq!(cp.ready[3], "EX-D");
}

#[test]
fn test_longest_path() {
    let items = make_items();
    let cp = compute_critical_path(&items).unwrap();

    assert!(!cp.longest_path.is_empty());
    if let Some(first) = cp.longest_path.first() {
        assert_eq!(depth_of(&cp, first), 0);
    }
    if let Some(last) = cp.longest_path.last() {
        assert_eq!(depth_of(&cp, last), 2);
    }
}

#[test]
fn campaign_aggregate_counts_expeditions_including_completed_members() {
    let item = |id: &str, ty: &str, status: &str, related: Vec<&str>| ItemInfo {
        id: id.into(),
        title: format!("{id} title"),
        item_type: ty.into(),
        status: status.into(),
        priority: "-".into(),
        assignee: "-".into(),
        related: related.into_iter().map(String::from).collect(),
        depends_on: vec![],
        rank: None,
    };
    let items = vec![
        item("VY-a", "voyage", "complete", vec![]),
        item("EX-a1", "expedition", "done", vec!["VY-a"]),
        item("EX-a2", "expedition", "complete", vec!["VY-a"]),
        item("EX-a3", "expedition", "retired", vec!["VY-a"]),
        item("CH-a1", "chore", "done", vec!["VY-a"]),
        item("VY-b", "voyage", "ready", vec![]),
        item("EX-b1", "expedition", "done", vec!["VY-b"]),
        item("EX-b2", "expedition", "backlog", vec!["VY-b"]),
        item("VY-c", "voyage", "ready", vec![]),
        item("EX-c1", "expedition", "done", vec!["VY-c"]),
    ];
    let members = vec!["VY-a".to_string(), "VY-b".to_string()];

    assert_eq!(campaign_aggregate(&items, &members), (2, 4, 5));
    assert_eq!(campaign_aggregate(&items, &vec![]), (0, 0, 0));
    assert_eq!(campaign_aggregate(&items, &vec!["VY-z".to_string()]), (0, 0, 0));
}

#[test]
fn format_campaign_roadmap_renders_members_aggregate_and_empty() {
    let item = |id: &str, ty: &str, status: &str, related: Vec<&str>| ItemInfo {
        id: id.into(),
        title: format!("{id} title"),
        item_type: ty.into(),
        status: status.into(),
        priority: "-".into(),
        assignee: "-".into(),
        related: related.into_iter().map(String::from).collect(),
        depends_on: vec![],
        rank: None,
    };
    let items = vec![
        item("CA-1", "campaign", "ready", vec![]),
        item("VY-a", "voyage", "ready", vec![]),
        item("EX-a1", "expedition", "done", vec!["VY-a"]),
        item("EX-a2", "expedition", "backlog", vec!["VY-a"]),
        item("VY-b", "voyage", "ready", vec![]),
        item("EX-b1", "expedition", "done", vec!["VY-b"]),
        item("VY-c", "voyage", "complete", vec![]),
        item("EX-c1", "expedition", "done", vec!["VY-c"]),
        item("EX-c2", "expedition", "done", vec!["VY-c"]),
    ];
    let members = vec!["VY-a".to_string(), "VY-b".to_string(), "VY-c".to_string()];

    let out = format_campaign_roadmap("CA-1", &members, &items);
    assert!(out.contains("Campaign CA-1"), "header: {out}");
    assert!(
        out.contains("3 member voyage(s)"),
        "member count incl. completed: {out}"
    );
    assert!(
        out.contains("4/5 expeditions done"),
        "aggregate incl. completed member: {out}"
    );
    assert!(
        out.contains("VY-a") && out.contains("VY-b"),
        "active members listed: {out}"
    );

    let empty = format_campaign_roadmap("CA-9", &vec![], &items);
    assert!(
        empty.contains("0 member voyage(s)"),
        "empty header: {empty}"
    );
    assert!(empty.contains("no members"), "empty guidance: {empty}");
}

#[test]
fn downstream_counts_each_dependent_once() {
    let cp = compute_critical_path(&make_items()).unwrap();
    assert_eq!(*lookup(&cp.downstream_count, "EX-1").unwrap(), 3);
    assert_eq!(*lookup(&cp.downstream_count, "EX-2").unwrap(), 2);
    assert_eq!(*lookup(&cp.downstream_count, "EX-6").unwrap(), 0);
}

#[test]
fn a_cycle_is_named_with_its_items() {
    let mut a = ex("A");
    a.depends_on = vec!["B".into()];
    let mut b = ex("B");
    b.depends_on = vec!["A".into()];
    let e = compute_critical_path(&[a, b, ex("C")]).unwrap_err();
    assert_eq!(e, "Dependency cycle detected among: A (A), B (B)");
}

#[test]
fn critical_path_lists_levels_and_bottlenecks() {
    let items = make_items();
    let cp = compute_critical_path(&items).unwrap();
    let shown = format_critical_path(&items, &cp);
    assert!(shown.starts_with("Critical Path (7 items, "), "{shown}");
    assert!(shown.contains("EX-5"), "{shown}");
    assert!(!shown.contains("EX-99"), "{shown}");
}

#[test]
fn roadmap_shows_voyage_progress() {
    let items = make_items();
    let cp = compute_critical_path(&items).unwrap();
    let (groups, orphans) = group_by_voyage(&items);
    let shown = format_roadmap(&items, &groups, &orphans, &cp);
    assert!(shown.contains("VY-1"), "{shown}");
    assert!(shown.contains("1/6"), "{shown}");
    assert!(shown.contains("EX-6"), "{shown}");
}

#[test]
fn worklist_is_a_table_of_agents() {
    let items = make_items();
    let cp = compute_critical_path(&items).unwrap();
    let agents = agents_from_items(&items);
    assert_eq!(agents, vec!["-".to_string(), "DGX".to_string(), "M5".to_string()]);
    let list = generate_worklist(&items, &cp, &agents, &CapabilityRouting::default(), 2);
    assert!(list.iter().all(|e| e.items.len() <= 2));
    let shown = format_worklist(&list);
    assert!(shown.contains("DGX"), "{shown}");
    assert!(shown.ends_with("~ = blocked, will become ready after current work completes"));
}

#[test]
fn priorities_and_truncation() {
    assert_eq!(priority_rank("critical"), 0);
    assert_eq!(priority_rank("high"), 1);
    assert_eq!(priority_rank("medium"), 2);
    assert_eq!(priority_rank("low"), 3);
    assert_eq!(truncate("short", 10), "short");
    assert_eq!(truncate("a rather long title", 10).chars().count(), 10);
}

#[test]
fn folding_twice_changes_nothing() {
    let mut items = vec![ex("EX-9"), vy("VY-9")];
    let mut rels = RelationsStore::new();
    rels.add_relation("EX-9", "VY-9", "implements").unwrap();
    fold_typed_voyage_memberships(&mut items, &rels);
    let once = items[0].related.clone();
    fold_typed_voyage_memberships(&mut items, &rels);
    assert_eq!(items[0].related, once);
}

#[test]
fn items_are_taken_up_as_they_are_released() {
    let item = |id: &str, deps: &[&str]| ItemInfo {
        id: id.into(),
        title: id.into(),
        item_type: "chore".into(),
        status: "backlog".into(),
        priority: "medium".into(),
        assignee: "-".into(),
        related: vec![],
        depends_on: deps.iter().map(|d| d.to_string()).collect(),
        rank: None,
    };
    let items = vec![
        item("R", &[]),
        item("X", &["R"]),
        item("Y", &["R"]),
        item("C", &["Y"]),
        item("D", &["X"]),
    ];
    let cp = compute_critical_path(&items).unwrap();
    assert_eq!(cp.ordered, vec!["R", "X", "Y", "D", "C"]);
    assert_eq!(cp.longest_path, vec!["R", "X", "D"]);
}
