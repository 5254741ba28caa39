use cityparquet::appearance_read::{
    app_step, ring_ref, smooth_flag, target_id, trimmed, AppAction, AppContext, AppEvent,
};
use cityparquet::error::CityParquetError;
use cityparquet::xml::XmlAttr;

fn app(local: &str) -> AppEvent {
    AppEvent::Start { app: true, gml: false, local: local.as_bytes().to_vec(), attrs: vec![] }
}

fn gml(local: &str) -> AppEvent {
    AppEvent::Start { app: false, gml: true, local: local.as_bytes().to_vec(), attrs: vec![] }
}

fn end(local: &str) -> AppEvent {
    AppEvent::End { local: local.as_bytes().to_vec() }
}

fn step(ctx: AppContext, ev: &AppEvent) -> AppAction {
    app_step(ctx, ev).unwrap()
}

#[test]
fn the_property_descends_into_its_appearance_only() {
    assert_eq!(step(AppContext::Property, &app("Appearance")), AppAction::Appearance);
    assert_eq!(step(AppContext::Property, &gml("Appearance")), AppAction::Skip);
    assert_eq!(step(AppContext::Property, &end("appearance")), AppAction::Done);
    assert_eq!(step(AppContext::Property, &end("Appearance")), AppAction::Continue);
    assert_eq!(step(AppContext::Property, &AppEvent::Other), AppAction::Continue);
}

#[test]
fn an_appearance_reads_its_theme_and_surface_data() {
    assert_eq!(step(AppContext::Appearance, &app("theme")), AppAction::Theme);
    assert_eq!(step(AppContext::Appearance, &app("surfaceDataMember")), AppAction::SurfaceDataMember);
    assert_eq!(step(AppContext::Appearance, &app("other")), AppAction::Skip);
    assert_eq!(step(AppContext::SurfaceDataMember, &app("X3DMaterial")), AppAction::X3DMaterial);
    assert_eq!(step(AppContext::SurfaceDataMember, &app("ParameterizedTexture")), AppAction::ParameterizedTexture);
    assert_eq!(step(AppContext::SurfaceDataMember, &app("GeoreferencedTexture")), AppAction::Skip);
}

#[test]
fn an_x3d_material_reads_its_properties() {
    let ctx = AppContext::X3DMaterial;
    assert_eq!(step(ctx, &gml("name")), AppAction::Name);
    assert_eq!(step(ctx, &app("name")), AppAction::Skip);
    assert_eq!(step(ctx, &app("diffuseColor")), AppAction::Color("diffuseColor".to_string()));
    assert_eq!(step(ctx, &app("specularColor")), AppAction::Color("specularColor".to_string()));
    assert_eq!(step(ctx, &app("shininess")), AppAction::Scalar("shininess".to_string()));
    assert_eq!(step(ctx, &app("isSmooth")), AppAction::IsSmooth);
    assert_eq!(step(ctx, &app("target")), AppAction::Target);
    assert_eq!(step(ctx, &gml("target")), AppAction::Skip);
    assert_eq!(step(ctx, &end("X3DMaterial")), AppAction::Done);
}

#[test]
fn a_parameterized_texture_reads_its_properties_and_rings() {
    let ctx = AppContext::ParameterizedTexture;
    assert_eq!(step(ctx, &app("imageURI")), AppAction::Image);
    assert_eq!(step(ctx, &app("mimeType")), AppAction::MimeType);
    assert_eq!(step(ctx, &app("wrapMode")), AppAction::WrapMode);
    assert_eq!(step(ctx, &app("borderColor")), AppAction::BorderColor);
    assert_eq!(step(ctx, &app("target")), AppAction::TextureTarget);
    let coords = AppEvent::Start {
        app: true,
        gml: false,
        local: b"textureCoordinates".to_vec(),
        attrs: vec![XmlAttr { key: b"ring".to_vec(), value: b" #ring-1 ".to_vec() }],
    };
    let t = AppContext::TextureTarget;
    assert_eq!(step(t, &coords), AppAction::TexCoords(Some("ring-1".to_string())));
    assert_eq!(step(t, &app("textureCoordinates")), AppAction::TexCoords(None));
    assert_eq!(step(t, &app("TexCoordList")), AppAction::TexCoordList);
    assert_eq!(step(t, &app("TexCoordGen")), AppAction::Skip);
    assert_eq!(step(t, &end("TexCoordList")), AppAction::Done);
    assert_eq!(step(t, &end("target")), AppAction::Done);
}

#[test]
fn the_end_of_the_document_inside_an_element_is_refused() {
    let err = app_step(AppContext::ParameterizedTexture, &AppEvent::Eof).unwrap_err();
    assert!(matches!(err, CityParquetError::Schema(_)));
    assert!(err.to_string().contains("<ParameterizedTexture>"));
    let err = app_step(AppContext::TextureTarget, &AppEvent::Eof).unwrap_err();
    assert!(err.to_string().contains("texture target"));
}

#[test]
fn element_text_is_read_as_the_reader_keeps_it() {
    assert_eq!(trimmed("  rgbTexture \n"), "rgbTexture");
    assert!(smooth_flag(" true "));
    assert!(!smooth_flag("True"));
    assert!(!smooth_flag("1"));
    assert_eq!(target_id(" #poly-7 "), Some("poly-7".to_string()));
    assert_eq!(target_id("#"), None);
    assert_eq!(target_id("poly-7"), None);
    assert_eq!(ring_ref(&[XmlAttr { key: b"app:ring".to_vec(), value: b"#".to_vec() }]), Some(String::new()));
    assert_eq!(ring_ref(&[XmlAttr { key: b"ring".to_vec(), value: b"r1".to_vec() }]), None);
}
