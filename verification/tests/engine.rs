use tag_universe::data::{domain_from_filename, ConnectedTag, MetaRelation};
use tag_universe::universe::generate_universe_cartography;

fn tag(name: &str, count: i32) -> ConnectedTag {
    ConnectedTag { name: name.to_string(), count }
}

fn rel(domain: &str, entries: Vec<(&str, Vec<ConnectedTag>)>) -> MetaRelation {
    let data: Vec<(String, Vec<ConnectedTag>)> =
        entries.into_iter().map(|(k, v)| (k.to_string(), v)).collect();
    MetaRelation::new(domain.to_string(), data)
}

fn path_names(path: &[ConnectedTag]) -> Vec<String> {
    path.iter().map(|t| t.name.clone()).collect()
}

#[test]
fn top_n_sorted_and_truncated() {
    let m = rel("d", vec![("a", vec![tag("b", 5), tag("c", 10), tag("e", 7)])]);
    let top2 = m.find_top_n("a", 2);
    assert_eq!(top2.len(), 2);
    assert_eq!(top2[0].name, "c");
    assert_eq!(top2[0].count, 10);
    assert_eq!(top2[1].name, "e");
    assert_eq!(top2[1].count, 7);
    for w in top2.windows(2) {
        assert!(w[0].count >= w[1].count);
    }
}

#[test]
fn top_n_returns_all_when_n_exceeds_list() {
    let m = rel("d", vec![("a", vec![tag("b", 5), tag("c", 10)])]);
    let all = m.find_top_n("a", 10);
    assert_eq!(all.len(), 2);
    assert_eq!(all[0].name, "c");
    assert_eq!(all[1].name, "b");
}

#[test]
fn top_n_zero_is_empty() {
    let m = rel("d", vec![("a", vec![tag("b", 5)])]);
    assert!(m.find_top_n("a", 0).is_empty());
}

#[test]
fn top_n_absent_tag_is_empty() {
    let m = rel("d", vec![("a", vec![tag("b", 5)])]);
    assert!(m.find_top_n("zzz", 3).is_empty());
}

#[test]
fn top_n_finds_the_right_key() {
    let m = rel(
        "d",
        vec![("a", vec![tag("b", 5)]), ("x", vec![tag("y", 9)])],
    );
    let top = m.find_top_n("x", 1);
    assert_eq!(top.len(), 1);
    assert_eq!(top[0].name, "y");
    assert_eq!(top[0].count, 9);
}

#[test]
fn zero_and_negative_counts_are_dropped_at_load() {
    let m = rel("d", vec![("a", vec![tag("b", 0), tag("c", 5), tag("e", -3)])]);
    let top = m.find_top_n("a", 10);
    assert_eq!(top.len(), 1);
    assert_eq!(top[0].name, "c");
}

#[test]
fn self_path_is_single_element_and_free() {
    let m = rel("d", vec![("a", vec![tag("b", 10)])]);
    let (path, cost) = m.find_path("a".to_string(), "a".to_string()).unwrap();
    assert_eq!(cost, 0);
    assert_eq!(path.len(), 1);
    assert_eq!(path[0].name, "a");
}

#[test]
fn goal_that_is_only_a_neighbour_is_absent() {
    // "g" appears only as a neighbour value, never as a key.
    let m = rel("d", vec![("a", vec![tag("g", 10)])]);
    assert!(m.find_path("a".to_string(), "g".to_string()).is_none());
}

#[test]
fn absent_goal_is_absent() {
    let m = rel("d", vec![("a", vec![tag("b", 10)]), ("b", vec![tag("a", 10)])]);
    assert!(m.find_path("a".to_string(), "zzz".to_string()).is_none());
}

#[test]
fn unreachable_goal_is_absent() {
    let m = rel(
        "d",
        vec![
            ("a", vec![tag("b", 10)]),
            ("b", vec![tag("a", 10)]),
            ("z", vec![tag("w", 5)]),
        ],
    );
    assert!(m.find_path("a".to_string(), "z".to_string()).is_none());
}

#[test]
fn direct_path_uses_floor_weight() {
    let m = rel("d", vec![("a", vec![tag("b", 3)]), ("b", vec![tag("a", 3)])]);
    let (path, cost) = m.find_path("a".to_string(), "b".to_string()).unwrap();
    assert_eq!(path_names(&path), vec!["a".to_string(), "b".to_string()]);
    // floor(1000 / 3) = 333
    assert_eq!(cost, 333);
}

#[test]
fn two_hop_path_adds_weights() {
    let m = rel(
        "d",
        vec![
            ("a", vec![tag("b", 10)]),
            ("b", vec![tag("a", 10)]),
            ("c", vec![tag("a", 5)]),
        ],
    );
    let (path, cost) = m.find_path("a".to_string(), "b".to_string()).unwrap();
    assert_eq!(path_names(&path), vec!["a".to_string(), "b".to_string()]);
    assert_eq!(cost, 100);

    let (path, cost) = m.find_path("c".to_string(), "b".to_string()).unwrap();
    assert_eq!(
        path_names(&path),
        vec!["c".to_string(), "a".to_string(), "b".to_string()]
    );
    // floor(1000 / 5) + floor(1000 / 10) = 200 + 100
    assert_eq!(cost, 300);
}

#[test]
fn cheapest_of_two_routes_wins() {
    let m = rel(
        "d",
        vec![
            ("a", vec![tag("b", 1), tag("c", 1000)]),
            ("b", vec![tag("a", 1), tag("g", 1000)]),
            ("c", vec![tag("a", 1000), tag("g", 1000)]),
            ("g", vec![tag("b", 1000), tag("c", 1000)]),
        ],
    );
    // via b: 1000 + 1 = 1001; via c: 1 + 1 = 2.
    let (path, cost) = m.find_path("a".to_string(), "g".to_string()).unwrap();
    assert_eq!(
        path_names(&path),
        vec!["a".to_string(), "c".to_string(), "g".to_string()]
    );
    assert_eq!(cost, 2);
}

#[test]
fn one_galaxy_per_distinct_domain() {
    let metas = vec![
        rel("alpha", vec![("a", vec![tag("b", 1)])]),
        rel("beta", vec![("c", vec![])]),
    ];
    let (galaxies, _) = generate_universe_cartography(&metas);
    let names: Vec<String> = galaxies.iter().map(|g| g.name.clone()).collect();
    assert_eq!(names, vec!["alpha".to_string(), "beta".to_string()]);
}

#[test]
fn planet_in_two_domains_is_one_planet_with_both_galaxies() {
    let metas = vec![
        rel("alpha", vec![("x", vec![tag("y", 2)]), ("y", vec![tag("x", 2)])]),
        rel("beta", vec![("x", vec![tag("z", 3)]), ("z", vec![tag("x", 3)])]),
    ];
    let (_, planets) = generate_universe_cartography(&metas);
    let xs: Vec<_> = planets.iter().filter(|p| p.name == "x").collect();
    assert_eq!(xs.len(), 1);
    let belong = &xs[0].belong_galaxy;
    assert_eq!(belong.len(), 2);
    assert!(belong.contains(&"alpha".to_string()));
    assert!(belong.contains(&"beta".to_string()));
    // "y" belongs only to alpha.
    let ys: Vec<_> = planets.iter().filter(|p| p.name == "y").collect();
    assert_eq!(ys.len(), 1);
    assert_eq!(ys[0].belong_galaxy, vec!["alpha".to_string()]);
}

#[test]
fn duplicate_edge_across_domains_survives_once() {
    let metas = vec![
        rel("alpha", vec![("a", vec![tag("b", 10)]), ("b", vec![tag("a", 10)])]),
        rel("beta", vec![("a", vec![tag("b", 20)]), ("b", vec![tag("a", 20)])]),
    ];
    let (_, planets) = generate_universe_cartography(&metas);
    let mut pair_conns = Vec::new();
    for p in &planets {
        for c in &p.conns {
            let mut pair = vec![c.source.clone(), c.target.clone()];
            pair.sort();
            if pair == vec!["a".to_string(), "b".to_string()] {
                pair_conns.push(c.count);
            }
        }
    }
    // Exactly one connection for the unordered pair {a, b}, with the count of
    // the domain processed first.
    assert_eq!(pair_conns, vec![10]);
}

#[test]
fn bidirectional_edge_within_one_domain_survives_once() {
    let metas = vec![rel(
        "alpha",
        vec![("a", vec![tag("b", 7)]), ("b", vec![tag("a", 7)])],
    )];
    let (_, planets) = generate_universe_cartography(&metas);
    let total: usize = planets.iter().map(|p| p.conns.len()).sum();
    assert_eq!(total, 1);
    let a = planets.iter().find(|p| p.name == "a").unwrap();
    assert_eq!(a.conns.len(), 1);
    assert_eq!(a.conns[0].source, "a");
    assert_eq!(a.conns[0].target, "b");
    assert_eq!(a.conns[0].count, 7);
}

#[test]
fn connections_are_attached_to_their_source_planet() {
    let metas = vec![rel(
        "alpha",
        vec![("a", vec![tag("b", 4), tag("c", 9)])],
    )];
    let (_, planets) = generate_universe_cartography(&metas);
    for p in &planets {
        for c in &p.conns {
            assert_eq!(c.source, p.name);
        }
    }
    let a = planets.iter().find(|p| p.name == "a").unwrap();
    assert_eq!(a.conns.len(), 2);
}

#[test]
fn domain_name_is_file_stem() {
    assert_eq!(domain_from_filename("stackoverflow.json"), "stackoverflow");
    assert_eq!(domain_from_filename("askubuntu"), "askubuntu");
    assert_eq!(domain_from_filename("a.b.json"), "a");
    assert_eq!(domain_from_filename(".hidden"), "");
}

#[test]
fn empty_input_yields_empty_model() {
    let metas: Vec<MetaRelation> = Vec::new();
    let (galaxies, planets) = generate_universe_cartography(&metas);
    assert!(galaxies.is_empty());
    assert!(planets.is_empty());
}
