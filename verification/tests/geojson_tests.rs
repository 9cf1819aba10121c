use pullauta::geojson::{feature_collection_text, geojson_outputs, layer_isom, layer_props};
use pullauta::geometry::Classification;

#[test]
fn geojson_outputs_no_duplicate_names() {
    let mut names: Vec<&str> = geojson_outputs().iter().map(|o| o.name).collect();
    names.sort();
    assert!(
        names.windows(2).all(|w| w[0] != w[1]),
        "duplicate output names: {names:?}"
    );
}

#[test]
fn geojson_outputs_in_order_with_merged_flags() {
    let outs = geojson_outputs();
    assert_eq!(outs.len(), 9);
    assert_eq!(outs[0].name, "contours");
    assert!(outs[0].skip_when_merged_bin);
    assert_eq!(outs[2].name, "dotknolls");
    assert!(!outs[2].skip_when_merged_bin);
    assert_eq!(outs[3].name, "cliffs");
    assert!(outs[3].skip_when_merged_bin);
    assert_eq!(outs[8].name, "osm_areas");
}

#[test]
fn layer_isom_codes() {
    assert_eq!(layer_isom("cont"), Some("101"));
    assert_eq!(layer_isom("contour"), Some("101"));
    assert_eq!(layer_isom("depression"), Some("101"));
    assert_eq!(layer_isom("slope_line"), Some("101"));
    assert_eq!(layer_isom("contour_index"), Some("102"));
    assert_eq!(layer_isom("depression_index"), Some("102"));
    assert_eq!(layer_isom("contour_intermed"), Some("103"));
    assert_eq!(layer_isom("depression_index_intermed"), Some("103"));
    assert_eq!(layer_isom("formline_depression"), Some("103"));
    assert_eq!(layer_isom("uglydotknoll"), Some("109"));
    assert_eq!(layer_isom("udepression"), Some("111"));
    assert_eq!(layer_isom("cliff2"), Some("202"));
    assert_eq!(layer_isom("cliff4"), Some("201"));
    assert_eq!(layer_isom("1010"), None);
    assert_eq!(layer_isom(""), None);
    assert_eq!(layer_isom("contour "), None);
}

#[test]
fn every_contour_class_has_a_contour_code() {
    for (c, code) in [
        (Classification::Contour, "101"),
        (Classification::Depression, "101"),
        (Classification::ContourIndex, "102"),
        (Classification::DepressionIndex, "102"),
        (Classification::ContourIntermed, "103"),
        (Classification::ContourIndexIntermed, "103"),
        (Classification::DepressionIntermed, "103"),
        (Classification::DepressionIndexIntermed, "103"),
    ] {
        assert_eq!(layer_isom(c.to_layer()), Some(code));
    }
}

#[test]
fn layer_props_with_and_without_code() {
    assert_eq!(layer_props("contour"), vec![("layer", "contour"), ("isom", "101")]);
    assert_eq!(layer_props("1010"), vec![("layer", "1010")]);
}

#[test]
fn feature_collection_framing() {
    let feats = vec!["{\"a\":1}".to_string(), "{\"b\":2}".to_string()];
    assert_eq!(
        feature_collection_text(&feats, None),
        "{\"type\":\"FeatureCollection\",\"features\":[{\"a\":1},{\"b\":2}]}"
    );
    let crs = "{\"type\":\"name\"}".to_string();
    assert_eq!(
        feature_collection_text(&Vec::new(), Some(&crs)),
        "{\"type\":\"FeatureCollection\",\"crs\":{\"type\":\"name\"},\"features\":[]}"
    );
}
