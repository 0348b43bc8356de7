use downgrade::graph::{get_dependencies, DependencyGraph};

fn graph(names: &[&str], successors: &[&[usize]]) -> DependencyGraph {
    DependencyGraph {
        names: names.iter().map(|s| s.to_string()).collect(),
        successors: successors.iter().map(|s| s.to_vec()).collect(),
    }
}

fn sorted(mut v: Vec<String>) -> Vec<String> {
    v.sort();
    v
}

fn chain() -> DependencyGraph {
    graph(&["app", "b", "c", "d"], &[&[1], &[2], &[3], &[]])
}

#[test]
fn chain_without_bound_gives_all_transitive_levels() {
    let g = chain();
    assert!(g.is_well_formed());
    assert_eq!(sorted(get_dependencies(None, &g)), vec!["b", "c", "d"]);
}

#[test]
fn bound_gives_exactly_that_level() {
    let g = chain();
    assert_eq!(get_dependencies(Some(1), &g), vec!["b"]);
    assert_eq!(get_dependencies(Some(2), &g), vec!["c"]);
    assert_eq!(get_dependencies(Some(3), &g), vec!["d"]);
}

#[test]
fn bound_below_the_leaves_gives_nothing() {
    let g = chain();
    assert!(get_dependencies(Some(4), &g).is_empty());
    assert!(get_dependencies(Some(255), &g).is_empty());
}

#[test]
fn diamond_names_are_listed_once() {
    let g = graph(&["app", "b", "c", "d"], &[&[1, 2], &[3], &[3], &[]]);
    assert_eq!(sorted(get_dependencies(None, &g)), vec!["b", "c", "d"]);
    assert_eq!(get_dependencies(Some(2), &g), vec!["d"]);
}

#[test]
fn roots_are_never_selected() {
    let g = graph(&["app", "tool", "x", "y"], &[&[2], &[3], &[], &[]]);
    let all = sorted(get_dependencies(None, &g));
    assert_eq!(all, vec!["x", "y"]);
    assert!(!all.contains(&"app".to_string()));
    assert!(!all.contains(&"tool".to_string()));
}

#[test]
fn same_name_on_two_levels_is_listed_once() {
    // two versions of "log", one directly below the root and one deeper
    let g = graph(&["app", "log", "env", "log"], &[&[1, 2], &[], &[3], &[]]);
    assert_eq!(sorted(get_dependencies(None, &g)), vec!["env", "log"]);
}

#[test]
fn graph_without_edges_selects_nothing() {
    let g = graph(&["a", "b"], &[&[], &[]]);
    assert!(get_dependencies(None, &g).is_empty());
    assert!(get_dependencies(Some(1), &g).is_empty());
    let empty = graph(&[], &[]);
    assert!(get_dependencies(None, &empty).is_empty());
}

#[test]
fn cycle_below_the_root_stops_after_the_last_level() {
    let g = graph(&["app", "b", "c"], &[&[1], &[2], &[1]]);
    assert_eq!(sorted(get_dependencies(None, &g)), vec!["b", "c"]);
    assert_eq!(get_dependencies(Some(255), &g), vec!["b"]);
    assert_eq!(get_dependencies(Some(254), &g), vec!["c"]);
}

#[test]
fn repeated_selection_gives_the_same_set() {
    let g = graph(&["app", "b", "c", "d", "e"], &[&[1, 2], &[3, 4], &[4], &[], &[]]);
    assert_eq!(sorted(get_dependencies(None, &g)), sorted(get_dependencies(None, &g)));
    assert_eq!(sorted(get_dependencies(Some(2), &g)), sorted(get_dependencies(Some(2), &g)));
    assert_eq!(sorted(get_dependencies(Some(2), &g)), vec!["d", "e"]);
}

#[test]
fn malformed_graphs_are_detected() {
    assert!(!graph(&["a"], &[&[1]]).is_well_formed());
    assert!(!graph(&["a", "b"], &[&[1]]).is_well_formed());
    assert!(graph(&["a", "b"], &[&[1], &[0]]).is_well_formed());
}
