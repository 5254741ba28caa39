use cityparquet::error::CityParquetError;
use cityparquet::gml::{
    collect_step, flipped, gml_step, orientation_reversed, polygon_of, ring_of, solid_member_of,
    solid_of, srs_dimension, surface_of, CollectStep, GmlAction, GmlContext, GmlEvent, RawSolid,
    RefTarget, SurfaceRef,
};
use cityparquet::xml::{sniff_step, CityGmlVersion, NsResolution, SniffEvent, SniffStep, XmlAttr, SNIFF_EVENT_LIMIT};

fn attr(k: &str, v: &str) -> XmlAttr {
    XmlAttr { key: k.as_bytes().to_vec(), value: v.as_bytes().to_vec() }
}

fn start(local: &str, attrs: Vec<XmlAttr>) -> GmlEvent {
    GmlEvent::Start { gml: true, local: local.as_bytes().to_vec(), attrs }
}

fn end(local: &str) -> GmlEvent {
    GmlEvent::End { local: local.as_bytes().to_vec() }
}

#[test]
fn solid_context_reads_shells_and_skips_the_rest() {
    let ctx = GmlContext::Solid;
    assert_eq!(gml_step(&ctx, &start("exterior", vec![])).unwrap(), GmlAction::Exterior);
    assert_eq!(gml_step(&ctx, &start("interior", vec![])).unwrap(), GmlAction::Interior);
    assert_eq!(gml_step(&ctx, &start("name", vec![])).unwrap(), GmlAction::Skip);
    // A non-GML child is skipped whatever its name.
    let foreign = GmlEvent::Start { gml: false, local: b"exterior".to_vec(), attrs: vec![] };
    assert_eq!(gml_step(&ctx, &foreign).unwrap(), GmlAction::Skip);
    assert_eq!(gml_step(&ctx, &end("exterior")).unwrap(), GmlAction::Continue);
    assert_eq!(gml_step(&ctx, &end("Solid")).unwrap(), GmlAction::Done);
    assert_eq!(gml_step(&ctx, &GmlEvent::Other).unwrap(), GmlAction::Continue);
    assert!(matches!(gml_step(&ctx, &GmlEvent::Eof), Err(CityParquetError::Schema(_))));
}

#[test]
fn shell_and_collection_contexts_close_on_their_own_name() {
    let ctx = GmlContext::Shell(b"interior".to_vec());
    assert_eq!(
        gml_step(&ctx, &start("CompositeSurface", vec![])).unwrap(),
        GmlAction::SurfaceCollection(b"CompositeSurface".to_vec())
    );
    assert_eq!(gml_step(&ctx, &start("Surface", vec![])).unwrap(), GmlAction::SurfaceCollection(b"Surface".to_vec()));
    assert_eq!(gml_step(&ctx, &end("exterior")).unwrap(), GmlAction::Continue);
    assert_eq!(gml_step(&ctx, &end("interior")).unwrap(), GmlAction::Done);
}

#[test]
fn surface_members_by_reference_or_inline() {
    let ctx = GmlContext::SurfaceCollection(b"CompositeSurface".to_vec());
    let by_ref = start("surfaceMember", vec![attr("xlink:href", "#poly-1")]);
    assert_eq!(gml_step(&ctx, &by_ref).unwrap(), GmlAction::XlinkMember("poly-1".to_string()));
    assert_eq!(gml_step(&ctx, &start("surfaceMember", vec![])).unwrap(), GmlAction::InlineMember);
    let external = start("surfaceMember", vec![attr("xlink:href", "other.gml#p")]);
    assert!(matches!(gml_step(&ctx, &external), Err(CityParquetError::Schema(_))));
}

#[test]
fn member_children_polygons_orientation_and_nesting() {
    let ctx = GmlContext::SurfaceMember;
    let poly = start("Polygon", vec![attr("gml:id", "p7")]);
    assert_eq!(gml_step(&ctx, &poly).unwrap(), GmlAction::Polygon(Some("p7".to_string())));
    let flipped_surface = start("OrientableSurface", vec![attr("orientation", "-")]);
    assert_eq!(gml_step(&ctx, &flipped_surface).unwrap(), GmlAction::Orientable(true));
    let plain = start("OrientableSurface", vec![attr("orientation", "+")]);
    assert_eq!(gml_step(&ctx, &plain).unwrap(), GmlAction::Orientable(false));
    assert_eq!(
        gml_step(&ctx, &start("MultiSurface", vec![])).unwrap(),
        GmlAction::SurfaceCollection(b"MultiSurface".to_vec())
    );
    assert_eq!(gml_step(&ctx, &end("surfaceMember")).unwrap(), GmlAction::Done);
}

#[test]
fn base_surfaces_and_rings() {
    let ctx = GmlContext::OrientableSurface;
    let base = start("baseSurface", vec![attr("xlink:href", "#b")]);
    assert_eq!(gml_step(&ctx, &base).unwrap(), GmlAction::XlinkBase("b".to_string()));
    assert_eq!(gml_step(&ctx, &start("baseSurface", vec![])).unwrap(), GmlAction::InlineBase);
    let ring = start("LinearRing", vec![attr("id", "r1")]);
    let rc = GmlContext::RingContainer(b"exterior".to_vec());
    assert_eq!(gml_step(&rc, &ring).unwrap(), GmlAction::LinearRing(Some("r1".to_string())));
    let lr = GmlContext::LinearRing;
    assert_eq!(gml_step(&lr, &start("posList", vec![])).unwrap(), GmlAction::Coordinates(3));
    let two_d = start("pos", vec![attr("srsDimension", " 2 ")]);
    assert_eq!(gml_step(&lr, &two_d).unwrap(), GmlAction::Coordinates(2));
    let bad_dim = start("posList", vec![attr("srsDimension", "three")]);
    assert_eq!(gml_step(&lr, &bad_dim).unwrap(), GmlAction::Coordinates(3));
}

#[test]
fn srs_dimension_parses_like_str_parse() {
    assert_eq!(srs_dimension(&[attr("srsDimension", "3")]), Some(3));
    assert_eq!(srs_dimension(&[attr("srsDimension", "+2")]), Some(2));
    assert_eq!(srs_dimension(&[attr("srsDimension", "007")]), Some(7));
    assert_eq!(srs_dimension(&[attr("srsDimension", "-1")]), None);
    assert_eq!(srs_dimension(&[attr("srsDimension", "")]), None);
    assert_eq!(srs_dimension(&[attr("srsDimension", "99999999999999999999999")]), None);
    assert_eq!(srs_dimension(&[]), None);
    assert!(orientation_reversed(&[attr("orientation", "-")]));
    assert!(!orientation_reversed(&[attr("orientation", "- ")]));
}

#[test]
fn solid_puts_the_exterior_first() {
    let shell = |n: usize| -> Vec<SurfaceRef<u32>> {
        (0..n).map(|i| SurfaceRef { reverse: false, target: RefTarget::Xlink(format!("p{i}")) }).collect()
    };
    let s: RawSolid<u32> = solid_of(Some(shell(2)), vec![shell(1), shell(3)]);
    assert_eq!(s.shells.iter().map(|sh| sh.len()).collect::<Vec<_>>(), vec![2, 1, 3]);
    let s: RawSolid<u32> = solid_of(None, vec![shell(1)]);
    assert_eq!(s.shells.len(), 1);
    assert!(matches!(solid_member_of::<u32>(None), Err(CityParquetError::Schema(_))));
}

#[test]
fn polygon_rings_and_ids() {
    let p = polygon_of(Some((10u32, Some("e".to_string()))), vec![(11, None), (12, Some("h".to_string()))]).unwrap();
    assert_eq!(p.id, None);
    assert_eq!(p.exterior, 10);
    assert_eq!(p.interiors, vec![11, 12]);
    assert_eq!(p.ring_ids, vec![Some("e".to_string()), None, Some("h".to_string())]);
    assert!(matches!(polygon_of::<u32>(None, vec![(1, None)]), Err(CityParquetError::Schema(_))));
    assert!(matches!(ring_of::<u32>(None), Err(CityParquetError::Schema(_))));
}

#[test]
fn orientation_flips_combine() {
    let inner = SurfaceRef { reverse: true, target: RefTarget::<u32>::Xlink("x".to_string()) };
    let r = flipped(true, inner);
    assert!(!r.reverse);
    let inner = SurfaceRef { reverse: false, target: RefTarget::<u32>::Xlink("x".to_string()) };
    assert!(flipped(true, inner).reverse);
    assert!(matches!(surface_of::<u32>(None, true), Err(CityParquetError::Schema(_))));
}

#[test]
fn polygon_harvest_tracks_depth() {
    let poly = start("Polygon", vec![attr("gml:id", "p1")]);
    assert_eq!(collect_step(1, &poly).unwrap(), CollectStep::Polygon(Some("p1".to_string())));
    assert_eq!(collect_step(1, &start("WallSurface", vec![])).unwrap(), CollectStep::Continue(2));
    assert_eq!(collect_step(2, &end("WallSurface")).unwrap(), CollectStep::Continue(1));
    assert_eq!(collect_step(1, &end("boundedBy")).unwrap(), CollectStep::Done);
    assert_eq!(collect_step(1, &GmlEvent::Other).unwrap(), CollectStep::Continue(1));
    assert!(collect_step(1, &GmlEvent::Eof).is_err());
}

#[test]
fn the_sniffer_decides_on_the_first_start_tag_within_its_limit() {
    let v2 = SniffEvent::Start {
        local: b"CityModel".to_vec(),
        ns: NsResolution::Bound(b"http://www.opengis.net/citygml/2.0".to_vec()),
    };
    assert!(matches!(sniff_step(0, &v2), SniffStep::Done(Some(CityGmlVersion::V2_0))));
    let v1 = SniffEvent::Start {
        local: b"CityModel".to_vec(),
        ns: NsResolution::Bound(b"http://www.opengis.net/citygml/1.0".to_vec()),
    };
    match sniff_step(3, &v1) {
        SniffStep::Done(Some(CityGmlVersion::Other(v))) => assert_eq!(v, "1.0"),
        _ => panic!("expected another CityGML version"),
    }
    let root = SniffEvent::Start { local: b"html".to_vec(), ns: NsResolution::Unbound };
    assert!(matches!(sniff_step(0, &root), SniffStep::Done(None)));
    assert!(matches!(sniff_step(0, &SniffEvent::Other), SniffStep::Continue));
    assert!(matches!(sniff_step(SNIFF_EVENT_LIMIT - 1, &SniffEvent::Other), SniffStep::Done(None)));
    assert!(matches!(sniff_step(5, &SniffEvent::Eof), SniffStep::Done(None)));
    assert!(matches!(sniff_step(5, &SniffEvent::Error), SniffStep::Done(None)));
}
