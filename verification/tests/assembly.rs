use cityparquet::assembly::{PartGraph, PartWalk, WalkStep, MAX_PART_DEPTH};
use cityparquet::error::CityParquetError;
use cityparquet::report::WriteReport;

/// Drive the walk the way the writer does, with each object's own content
/// standing in as `<lod2Solid/>` when it has a solid and as nothing when not.
fn run(
    root: &str,
    content: &[(&str, bool)],
    children: &[(&str, &[&str])],
    seen: Vec<String>,
) -> Result<(String, bool, WriteReport, Vec<usize>, PartWalk), CityParquetError> {
    let graph = PartGraph {
        content: content.iter().map(|(id, _)| id.to_string()).collect(),
        children: children
            .iter()
            .map(|(id, cs)| (id.to_string(), cs.iter().map(|c| c.to_string()).collect()))
            .collect(),
        kinds: content
            .iter()
            .map(|(id, _)| (id.to_string(), if *id == root { "Building" } else { "BuildingPart" }.to_string()))
            .collect(),
    };
    let mut walk = PartWalk::start(root, seen, Vec::new(), 0);
    let mut report = WriteReport::default();
    let mut buffers: Vec<String> = Vec::new();
    let mut indexes = Vec::new();
    let mut emitted = false;
    loop {
        match walk.resume(&graph, emitted, &mut report)? {
            WalkStep::Continue => {}
            WalkStep::Content { id, feature_index } => {
                indexes.push(feature_index);
                let solid = content.iter().any(|(c, s)| *c == id && *s);
                buffers.push(if solid { "<bldg:lod2Solid/>".to_string() } else { String::new() });
                emitted = solid;
            }
            WalkStep::WrapPart { id } => {
                let child = buffers.pop().unwrap();
                buffers.last_mut().unwrap().push_str(&format!(
                    "<bldg:consistsOfBuildingPart><bldg:BuildingPart gml:id=\"{id}\">{child}</bldg:BuildingPart></bldg:consistsOfBuildingPart>"
                ));
            }
            WalkStep::DropPart => {
                buffers.pop();
            }
            WalkStep::Finished { non_empty } => {
                let inner = buffers.pop().unwrap_or_default();
                return Ok((inner, non_empty, report, indexes, walk));
            }
        }
    }
}

#[test]
fn geometryless_parent_with_part_emits_consists_of_building_part() {
    let (xml, ne, r, _, _) = run("P", &[("P", false), ("P_c", true)], &[("P", &["P_c"])], vec![]).unwrap();
    assert!(ne, "a geometry-less parent WITH a rendered part emits");
    assert!(xml.contains("<bldg:consistsOfBuildingPart><bldg:BuildingPart gml:id=\"P_c\">"), "{xml}");
    assert!(xml.contains("<bldg:lod2Solid/>"), "{xml}");
    assert_eq!(r.building_parts_written, 1);
}

#[test]
fn parts_emitted_in_stored_children_order() {
    let (xml, _, _, _, _) =
        run("P", &[("P", false), ("c1", true), ("c2", true)], &[("P", &["c2", "c1"])], vec![]).unwrap();
    assert!(xml.find("gml:id=\"c2\"").unwrap() < xml.find("gml:id=\"c1\"").unwrap(), "parts follow children order: {xml}");
}

#[test]
fn parent_with_only_empty_parts_skips() {
    let (_, ne, r, _, _) = run("P", &[("P", false), ("P_c", false)], &[("P", &["P_c"])], vec![]).unwrap();
    assert!(!ne, "a parent with only empty parts collapses");
    assert_eq!(r.building_parts_skipped, 1);
}

#[test]
fn cycle_guard_terminates() {
    let (xml, ne, r, _, _) = run("P", &[("P", true), ("c", false)], &[("P", &["c"]), ("c", &["P"])], vec![]).unwrap();
    assert!(ne, "P has a solid");
    assert!(xml.contains("<bldg:lod2Solid/>"), "{xml}");
    // `c` names the Building `P`, which is no BuildingPart; `c` itself is empty.
    assert_eq!(r.children_unresolved, 1);
    assert_eq!(r.building_parts_skipped, 1);
}

#[test]
fn unresolved_child_is_counted() {
    let (_, _, r, _, _) = run("P", &[("P", true)], &[("P", &["missing"])], vec![]).unwrap();
    assert_eq!(r.children_unresolved, 1);
}

#[test]
fn a_part_that_is_its_own_ancestor_renders_nothing_there() {
    // a -> b -> a: the inner `a` is skipped, and the walk ends.
    let (xml, ne, r, idx, _) = run("P", &[("P", false), ("a", true), ("b", false)], &[("P", &["a"]), ("a", &["b"]), ("b", &["a"])], vec![]).unwrap();
    assert!(ne);
    assert_eq!(idx, vec![0, 1, 2]);
    assert_eq!(r.building_parts_skipped, 2);
    assert_eq!(r.building_parts_written, 1);
    assert_eq!(xml.matches("gml:id=\"a\"").count(), 1, "{xml}");
}

#[test]
fn feature_indexes_follow_the_depth_first_order() {
    let (_, _, _, idx, walk) = run(
        "P",
        &[("P", true), ("a", true), ("b", true), ("a1", true)],
        &[("P", &["a", "b"]), ("a", &["a1"])],
        vec![],
    )
    .unwrap();
    assert_eq!(idx, vec![0, 1, 2, 3]);
    assert_eq!(walk.next_feature_index(), 4);
    assert_eq!(walk.reached(), &vec!["a".to_string(), "a1".to_string(), "b".to_string()]);
    assert_eq!(walk.seen(), &vec!["a1".to_string(), "a".to_string(), "b".to_string(), "P".to_string()]);
}

#[test]
fn an_absent_root_renders_nothing() {
    let (xml, ne, r, idx, _) = run("Q", &[("P", true)], &[], vec![]).unwrap();
    assert!(!ne);
    assert!(xml.is_empty());
    assert!(idx.is_empty());
    assert_eq!(r, WriteReport::default());
}

#[test]
fn a_non_ncname_id_is_refused() {
    let err = run("3bad", &[("3bad", true)], &[], vec![]).unwrap_err();
    assert!(matches!(err, CityParquetError::Schema(_)));
    let err = run("P", &[("P", true), ("c d", true)], &[("P", &["c d"])], vec![]).unwrap_err();
    assert!(err.to_string().contains("NCName"));
}

#[test]
fn an_id_already_in_the_document_is_refused_only_when_written() {
    let err = run("P", &[("P", true)], &[], vec!["P".to_string()]).unwrap_err();
    assert!(err.to_string().contains("duplicate CityObject id"));
    // An empty object writes nothing, so its id may repeat.
    assert!(run("P", &[("P", false)], &[], vec!["P".to_string()]).is_ok());
    // A part reached twice through two parents is written twice: refused.
    let err = run("P", &[("P", false), ("a", false), ("b", false), ("x", true)], &[("P", &["a", "b"]), ("a", &["x"]), ("b", &["x"])], vec![])
        .unwrap_err();
    assert!(err.to_string().contains("\"x\"") || err.to_string().contains("x;"));
}

#[test]
fn nesting_deeper_than_the_bound_is_refused() {
    let ids: Vec<String> = (0..=MAX_PART_DEPTH + 1).map(|i| format!("n{i}")).collect();
    let content: Vec<(&str, bool)> = ids.iter().map(|s| (s.as_str(), true)).collect();
    let links: Vec<[&str; 1]> = ids.windows(2).map(|w| [w[1].as_str()]).collect();
    let children: Vec<(&str, &[&str])> = ids.windows(2).zip(links.iter()).map(|(w, l)| (w[0].as_str(), &l[..])).collect();
    let err = run("n0", &content, &children, vec![]).unwrap_err();
    assert!(err.to_string().contains("nested deeper than 32"));
    // Exactly the bound is fine.
    let ok = run("n1", &content, &children, vec![]).unwrap();
    assert!(ok.1);
}

#[test]
fn a_repeated_object_id_is_refused_and_orphans_are_counted() {
    let mut g = PartGraph::new();
    g.add_object("b1".to_string(), "Building".to_string(), vec!["p1".to_string()]).unwrap();
    g.add_object("p1".to_string(), "BuildingPart".to_string(), vec![]).unwrap();
    g.add_object("p2".to_string(), "BuildingPart".to_string(), vec![]).unwrap();
    match g.add_object("p1".to_string(), "BuildingPart".to_string(), vec![]) {
        Err(CityParquetError::Metadata(m)) => assert_eq!(m, "duplicate CityObject id \"p1\" in the package"),
        other => panic!("expected a Metadata error, got {other:?}"),
    }
    assert_eq!(g.kinds.len(), 3);
    assert_eq!(g.orphaned_parts(&vec!["p1".to_string()]), 1);
    assert_eq!(g.orphaned_parts(&vec![]), 2);
    assert_eq!(g.orphaned_parts(&vec!["p1".to_string(), "p2".to_string()]), 0);
}
