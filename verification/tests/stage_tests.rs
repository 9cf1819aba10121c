use pullauta::process::xyz_columns;
use pullauta::merge::{contour_fate, height_probe_start, ContourFate};
use pullauta::geometry::Classification;
use pullauta::knolls::dotknoll_class;
use pullauta::merge::{contour_class, files_by_suffix, merge_suffixes};
use pullauta::process::{input_kind, tile_stages, worker_counts, InputKind, RenderStage, TileFlags};
use pullauta::vege_vector::{greenshade_isom, isom_to_class, min_area_quarter_m2, veg_draw_order};

#[test]
fn merge_groups_files_by_suffix() {
    let names: Vec<String> = [
        "a_contours.dxf.bin",
        "b_c2g.dxf.bin",
        "a_c3g.dxf.bin",
        "b_contours.dxf.bin",
        "a_contours.dxf",
        "merged.dxf.bin",
        "x_detected.dxf.bin",
        "x_dotknolls.dxf.bin",
        "x_formlines.dxf.bin",
        "x_basemap.dxf.bin",
        "contours.dxf.bin",
    ]
    .iter()
    .map(|s| s.to_string())
    .collect();
    let groups = files_by_suffix(&names);
    assert_eq!(
        merge_suffixes(),
        vec!["contours", "c2g", "basemap", "c3g", "formlines", "dotknolls", "detected"]
    );
    assert_eq!(groups[0], vec![0, 3]);
    assert_eq!(groups[1], vec![1]);
    assert_eq!(groups[2], vec![9]);
    assert_eq!(groups[3], vec![2]);
    assert_eq!(groups[4], vec![8]);
    assert_eq!(groups[5], vec![7]);
    assert_eq!(groups[6], vec![6]);
}

#[test]
fn contour_class_adds_index_then_intermed() {
    assert_eq!(contour_class(false, false, false), Classification::Contour);
    assert_eq!(contour_class(true, false, false), Classification::Depression);
    assert_eq!(contour_class(false, true, false), Classification::ContourIndex);
    assert_eq!(contour_class(true, true, false), Classification::DepressionIndex);
    assert_eq!(contour_class(false, false, true), Classification::ContourIntermed);
    assert_eq!(contour_class(false, true, true), Classification::ContourIndexIntermed);
    assert_eq!(contour_class(true, false, true), Classification::DepressionIntermed);
    assert_eq!(contour_class(true, true, true), Classification::DepressionIndexIntermed);
}

#[test]
fn dotknoll_classes() {
    assert_eq!(dotknoll_class(true, true), Classification::Dotknoll);
    assert_eq!(dotknoll_class(true, false), Classification::Udepression);
    assert_eq!(dotknoll_class(false, true), Classification::UglyDotknoll);
    assert_eq!(dotknoll_class(false, false), Classification::UglyUdepression);
}

#[test]
fn vegetation_minimum_areas() {
    // quarter square metres
    assert_eq!(min_area_quarter_m2(401), 256);
    assert_eq!(min_area_quarter_m2(404), 5625);
    assert_eq!(min_area_quarter_m2(407), 1350);
    assert_eq!(min_area_quarter_m2(408), 441);
    assert_eq!(min_area_quarter_m2(412), 8100);
    assert_eq!(min_area_quarter_m2(411), 256);
    assert_eq!(min_area_quarter_m2(0), 256);
    assert_eq!(min_area_quarter_m2(404) as f64 / 4.0, 1406.25);
}

#[test]
fn vegetation_classes_and_order() {
    assert_eq!(isom_to_class(403), Classification::Veg403);
    assert_eq!(isom_to_class(407), Classification::Veg407);
    assert_eq!(isom_to_class(409), Classification::Veg410);
    assert_eq!(veg_draw_order(403), 0);
    assert_eq!(veg_draw_order(406), 1);
    assert_eq!(veg_draw_order(408), 2);
    assert_eq!(veg_draw_order(410), 3);
    assert_eq!(veg_draw_order(407), 4);
    assert_eq!(veg_draw_order(401), 5);
}

#[test]
fn greenshade_table_lookup() {
    let map = vec![406u16, 408, 410];
    assert_eq!(greenshade_isom(&map, 1), 406);
    assert_eq!(greenshade_isom(&map, 3), 410);
    assert_eq!(greenshade_isom(&map, 0), 406);
    assert_eq!(greenshade_isom(&map, 9), 410);
    assert_eq!(greenshade_isom(&Vec::new(), 2), 410);
}

#[test]
fn input_kinds() {
    assert_eq!(input_kind("tile.xyz"), Some(InputKind::Xyz));
    assert_eq!(input_kind("tile.laz"), Some(InputKind::Laz));
    assert_eq!(input_kind("tile.las"), Some(InputKind::Laz));
    assert_eq!(input_kind("tile.xyz.bin"), Some(InputKind::XyzBin));
    assert_eq!(input_kind("tile.txt"), None);
    assert_eq!(input_kind("xyz"), None);
}

fn flags() -> TileFlags {
    TileFlags {
        vegeonly: false,
        cliffsonly: false,
        contoursonly: false,
        skipknolldetection: false,
        basemap: false,
        vectorvege: false,
        detectbuildings: false,
        skip_rendering: false,
    }
}

#[test]
fn full_processing_runs_every_stage() {
    let s = tile_stages(TileFlags { basemap: true, vectorvege: true, detectbuildings: true, ..flags() });
    assert!(s.contours03 && s.basemap && s.knoll_detection && s.contour_generation);
    assert!(s.contour_geojson && s.vegetation && s.cliffs && s.buildings);
    assert_eq!(s.render, RenderStage::Maps);
}

#[test]
fn vegetation_only_skips_contours_cliffs_and_rendering() {
    let s = tile_stages(TileFlags { vegeonly: true, basemap: true, ..flags() });
    assert!(!s.contours03 && !s.basemap && !s.knoll_detection && !s.contour_generation);
    assert!(s.vegetation && !s.cliffs && !s.buildings);
    assert_eq!(s.render, RenderStage::Skip);
}

#[test]
fn contours_only_renders_form_lines() {
    let s = tile_stages(TileFlags { contoursonly: true, skipknolldetection: true, ..flags() });
    assert!(s.contours03 && !s.knoll_detection && s.contour_generation);
    assert!(!s.vegetation && !s.cliffs);
    assert_eq!(s.render, RenderStage::FormlinesOnly);
    let s = tile_stages(TileFlags { skip_rendering: true, ..flags() });
    assert_eq!(s.render, RenderStage::Skip);
}

#[test]
fn worker_and_queue_counts() {
    assert_eq!(worker_counts(8, 3), (3, 1));
    assert_eq!(worker_counts(8, 100), (8, 4));
    assert_eq!(worker_counts(1, 100), (1, 1));
    assert_eq!(worker_counts(5, 0), (0, 1));
}

#[test]
fn contour_fates_by_length() {
    assert_eq!(contour_fate(2, false), ContourFate::Dropped);
    assert_eq!(contour_fate(4, false), ContourFate::Dropped);
    assert_eq!(contour_fate(5, false), ContourFate::DotKnoll);
    assert_eq!(contour_fate(14, false), ContourFate::DotKnoll);
    assert_eq!(contour_fate(14, true), ContourFate::Dropped);
    assert_eq!(contour_fate(15, false), ContourFate::Contour);
    assert_eq!(contour_fate(200, true), ContourFate::Dropped);
    assert_eq!(height_probe_start(1), 0);
    assert_eq!(height_probe_start(7), 1);
    assert_eq!(height_probe_start(10), 2);
    assert_eq!(height_probe_start(12), 2);
}

#[test]
fn text_point_columns_default_to_ground() {
    assert_eq!(xyz_columns(b"1.0 2.0 3.0"), Some((2, 0, 0)));
    assert_eq!(xyz_columns(b"1 2 3 5"), Some((5, 0, 0)));
    assert_eq!(xyz_columns(b"1 2 3 5 1"), Some((5, 1, 0)));
    assert_eq!(xyz_columns(b"1 2 3 5 1 1"), Some((5, 1, 1)));
    assert_eq!(xyz_columns(b"1 2 3 5 1 1 99 extra"), Some((5, 1, 1)));
}

#[test]
fn text_point_columns_parse_like_u8() {
    assert_eq!(xyz_columns(b"1 2 3 +7 2"), Some((7, 2, 0)));
    assert_eq!(xyz_columns(b"1 2 3 007"), Some((7, 0, 0)));
    assert_eq!(xyz_columns(b"1 2 3 255 0 0"), Some((255, 0, 0)));
    assert_eq!(xyz_columns(b"1 2 3 256"), None);
    assert_eq!(xyz_columns(b"1 2 3 -1"), None);
    assert_eq!(xyz_columns(b"1 2 3 +"), None);
    assert_eq!(xyz_columns(b"1 2 3 x"), None);
    assert_eq!(xyz_columns(b"1 2 3 2 1 1x"), None);
}

#[test]
fn text_point_columns_need_single_spaces_and_coordinates() {
    // an empty field where a column stands does not parse
    assert_eq!(xyz_columns(b"1 2 3  5"), None);
    assert_eq!(xyz_columns(b"1 2 3 "), None);
    // fewer than three coordinate fields
    assert_eq!(xyz_columns(b"1 2"), None);
    assert_eq!(xyz_columns(b""), None);
    // empty coordinate fields are the caller's to reject
    assert_eq!(xyz_columns(b"  "), Some((2, 0, 0)));
}
