use cityparquet::building_read::{
    add_solid, bldg_step, lod_solid_of, BldgAction, BldgContext, BldgEvent, PolygonRegistry,
};
use cityparquet::error::CityParquetError;
use cityparquet::gml::{Polygon, RefTarget, SurfaceRef};
use cityparquet::xml::XmlAttr;

fn start(bldg: bool, gml: bool, generic: bool, local: &str) -> BldgEvent {
    BldgEvent::Start { bldg, gml, generic, local: local.as_bytes().to_vec(), attrs: vec![] }
}

fn poly(id: Option<&str>, tag: u32) -> Polygon<u32> {
    Polygon { id: id.map(str::to_string), exterior: tag, interiors: vec![], ring_ids: vec![] }
}

fn xlink(id: &str) -> SurfaceRef<u32> {
    SurfaceRef { reverse: false, target: RefTarget::Xlink(id.to_string()) }
}

#[test]
fn a_building_routes_its_children() {
    let b = BldgContext::Building;
    assert_eq!(bldg_step(&b, &start(true, false, false, "lod2Solid")).unwrap(), BldgAction::LodSolid("2".to_string()));
    assert_eq!(bldg_step(&b, &start(true, false, false, "lod12Solid")).unwrap(), BldgAction::LodSolid("12".to_string()));
    assert_eq!(bldg_step(&b, &start(true, false, false, "lodXSolid")).unwrap(), BldgAction::TypedAttribute);
    assert_eq!(bldg_step(&b, &start(true, false, false, "lod1MultiSurface")).unwrap(), BldgAction::MultiSurface);
    assert_eq!(bldg_step(&b, &start(true, false, false, "boundedBy")).unwrap(), BldgAction::BoundedBy);
    assert_eq!(bldg_step(&b, &start(true, false, false, "measuredHeight")).unwrap(), BldgAction::TypedAttribute);
    assert_eq!(bldg_step(&b, &start(false, true, false, "boundedBy")).unwrap(), BldgAction::Skip);
    let generic = BldgEvent::Start {
        bldg: false,
        gml: false,
        generic: true,
        local: b"stringAttribute".to_vec(),
        attrs: vec![XmlAttr { key: b"name".to_vec(), value: b"owner".to_vec() }],
    };
    assert_eq!(bldg_step(&b, &generic).unwrap(), BldgAction::GenericAttribute(Some("owner".to_string())));
    assert_eq!(bldg_step(&b, &BldgEvent::End { local: b"Building".to_vec() }).unwrap(), BldgAction::Done);
    assert_eq!(bldg_step(&b, &BldgEvent::End { local: b"BuildingPart".to_vec() }).unwrap(), BldgAction::Continue);
    let err = bldg_step(&b, &BldgEvent::Eof).unwrap_err();
    assert!(matches!(err, CityParquetError::Schema(_)));
    assert!(err.to_string().contains("<bldg:Building>"));
}

#[test]
fn a_lod_solid_holds_a_solid_and_a_bounded_by_its_surfaces() {
    let s = BldgContext::LodSolid(b"lod2Solid".to_vec());
    assert_eq!(bldg_step(&s, &start(false, true, false, "Solid")).unwrap(), BldgAction::Solid);
    assert_eq!(bldg_step(&s, &start(false, true, false, "CompositeSolid")).unwrap(), BldgAction::CompositeSolid);
    assert_eq!(bldg_step(&s, &start(true, false, false, "Solid")).unwrap(), BldgAction::Skip);
    assert_eq!(bldg_step(&s, &BldgEvent::End { local: b"lod2Solid".to_vec() }).unwrap(), BldgAction::Done);
    assert!(matches!(lod_solid_of::<u32>(None), Err(CityParquetError::Schema(_))));
    assert_eq!(lod_solid_of(Some(7u32)).unwrap(), 7);
    let bb = BldgContext::BoundedBy;
    assert_eq!(bldg_step(&bb, &start(true, false, false, "WallSurface")).unwrap(), BldgAction::Surface(b"WallSurface".to_vec()));
    assert_eq!(bldg_step(&bb, &start(false, true, false, "Polygon")).unwrap(), BldgAction::Skip);
    assert!(bldg_step(&bb, &BldgEvent::Eof).unwrap_err().to_string().contains("<bldg:boundedBy>"));
}

#[test]
fn the_first_solid_of_each_lod_is_kept() {
    let mut solids: Vec<(String, u32)> = Vec::new();
    assert!(add_solid(&mut solids, "2".to_string(), 1));
    assert!(add_solid(&mut solids, "1".to_string(), 2));
    assert!(!add_solid(&mut solids, "2".to_string(), 3));
    assert_eq!(solids, vec![("2".to_string(), 1), ("1".to_string(), 2)]);
}

#[test]
fn surfaces_resolve_through_the_registry() {
    let mut reg: PolygonRegistry<u32> = PolygonRegistry::new();
    reg.add_polygons(vec![(Some("ceiling".to_string()), poly(Some("ceiling"), 1)), (None, poly(None, 2))]);
    assert_eq!(reg.add_surface("WallSurface".to_string(), vec![(Some("w1".to_string()), poly(Some("w1"), 3))]), 0);
    assert_eq!(
        reg.add_surface("RoofSurface".to_string(), vec![(Some("r1".to_string()), poly(Some("r1"), 4)), (None, poly(None, 5))]),
        1
    );
    assert_eq!(reg.surfaces(), &vec!["WallSurface".to_string(), "RoofSurface".to_string()]);

    assert_eq!(reg.resolve(&xlink("w1")).unwrap().exterior, 3);
    assert_eq!(reg.semantic_value(&xlink("w1")), Some(0));
    assert_eq!(reg.semantic_value(&xlink("r1")), Some(1));
    // A polygon outside every boundedBy has no semantic surface.
    assert_eq!(reg.resolve(&xlink("ceiling")).unwrap().exterior, 1);
    assert_eq!(reg.semantic_value(&xlink("ceiling")), None);
    // An inline polygon is itself, without semantics.
    let inline = SurfaceRef { reverse: true, target: RefTarget::Inline(poly(Some("i"), 9)) };
    assert_eq!(reg.resolve(&inline).unwrap().exterior, 9);
    assert_eq!(reg.semantic_value(&inline), None);
    // A reference the building does not define is refused.
    let err = reg.resolve(&xlink("elsewhere")).unwrap_err();
    assert!(matches!(err, CityParquetError::Schema(_)));
    assert!(err.to_string().contains("#elsewhere"));
}

#[test]
fn a_later_polygon_replaces_an_earlier_one_of_the_same_id() {
    let mut reg: PolygonRegistry<u32> = PolygonRegistry::new();
    reg.add_surface("WallSurface".to_string(), vec![(Some("p".to_string()), poly(Some("p"), 1))]);
    reg.add_surface("GroundSurface".to_string(), vec![(Some("p".to_string()), poly(Some("p"), 2))]);
    assert_eq!(reg.resolve(&xlink("p")).unwrap().exterior, 2);
    assert_eq!(reg.semantic_value(&xlink("p")), Some(1));
}
