use pullauta::shapes::{isom_symbol, mtk_symbol, shape_symbol, ShapeSymbol, SymbolColour, SymbolLayer};

fn line(colour: SymbolColour, layer: SymbolLayer, thickness: u32, dashed: bool, road_edge: u32, edge_top: bool) -> ShapeSymbol {
    ShapeSymbol { colour, layer, thickness, dashed, area: false, border: 0, road_edge, edge_top }
}

fn area(colour: SymbolColour, layer: SymbolLayer, border: u32) -> ShapeSymbol {
    ShapeSymbol { colour, layer, thickness: 1, dashed: false, area: true, border, road_edge: 0, edge_top: false }
}

#[test]
fn roads_and_paths_follow_their_level() {
    assert_eq!(shape_symbol("12111", 0), Some(line(SymbolColour::Brown, SymbolLayer::Brown, 20, false, 26, false)));
    assert_eq!(shape_symbol("12111", 1), Some(line(SymbolColour::Brown, SymbolLayer::Brown, 14, false, 26, true)));
    assert_eq!(shape_symbol("12111", -11), None);
    assert_eq!(shape_symbol("12316", -1), Some(line(SymbolColour::Black, SymbolLayer::Black, 12, true, 0, false)));
    assert_eq!(shape_symbol("12316", 2), Some(line(SymbolColour::Black, SymbolLayer::BlackTop, 12, true, 0, false)));
    assert_eq!(shape_symbol("12141", 0), Some(line(SymbolColour::Black, SymbolLayer::Black, 12, false, 0, false)));
    assert_eq!(shape_symbol("12312", 0), Some(line(SymbolColour::Black, SymbolLayer::Black, 6, true, 0, false)));
    assert_eq!(shape_symbol("12313", 1), Some(line(SymbolColour::Black, SymbolLayer::BlackTop, 5, true, 0, false)));
    assert_eq!(shape_symbol("14110", 0), Some(line(SymbolColour::White, SymbolLayer::Black, 3, false, 18, false)));
    assert_eq!(shape_symbol("14110", 3), Some(line(SymbolColour::White, SymbolLayer::BlackTop, 3, false, 18, true)));
}

#[test]
fn lines_and_areas_by_class() {
    assert_eq!(shape_symbol("36311", -11), Some(line(SymbolColour::Marsh, SymbolLayer::Blue, 4, false, 0, false)));
    assert_eq!(shape_symbol("22300", 0), Some(line(SymbolColour::Black, SymbolLayer::BlackTop, 5, false, 0, false)));
    assert_eq!(shape_symbol("44213", 0), Some(line(SymbolColour::Black, SymbolLayer::BlackTop, 7, false, 0, false)));
    assert_eq!(shape_symbol("32611", 0), Some(area(SymbolColour::Yellow, SymbolLayer::Yellow, 3)));
    assert_eq!(shape_symbol("36200", 0), Some(area(SymbolColour::Blue, SymbolLayer::Blue, 5)));
    assert_eq!(shape_symbol("35421", 0), Some(area(SymbolColour::Marsh, SymbolLayer::Marsh, 3)));
    assert_eq!(shape_symbol("35422", 0), Some(area(SymbolColour::Marsh, SymbolLayer::Marsh, 0)));
    assert_eq!(shape_symbol("42262", 0), Some(area(SymbolColour::Building, SymbolLayer::Black, 0)));
    assert_eq!(shape_symbol("32000", 0), Some(area(SymbolColour::Olive, SymbolLayer::Olive, 0)));
    // a car park listed as settlement too is drawn as car park
    assert_eq!(shape_symbol("32411", 0), Some(area(SymbolColour::Brown, SymbolLayer::Parkings, 0)));
    assert_eq!(shape_symbol("32421", 0), Some(area(SymbolColour::Brown, SymbolLayer::Parkings, 0)));
    assert_eq!(shape_symbol("99999", 0), None);
    assert_eq!(shape_symbol("", 0), None);
}

#[test]
fn skipped_classes_are_not_drawn() {
    let skipped = vec!["32611".to_string(), "36200".to_string()];
    assert_eq!(mtk_symbol("32611", 0, &skipped), None);
    assert_eq!(mtk_symbol("36200", 0, &skipped), None);
    assert_eq!(mtk_symbol("12111", 0, &skipped), shape_symbol("12111", 0));
    assert_eq!(mtk_symbol("12111", 0, &vec![]), shape_symbol("12111", 0));
}

#[test]
fn configured_isom_codes() {
    assert_eq!(isom_symbol("503T"), Some(line(SymbolColour::Brown, SymbolLayer::Brown, 14, false, 26, true)));
    assert_eq!(isom_symbol("505"), Some(line(SymbolColour::Black, SymbolLayer::Black, 12, true, 0, false)));
    assert_eq!(isom_symbol("515T"), Some(line(SymbolColour::White, SymbolLayer::BlackTop, 3, false, 18, true)));
    assert_eq!(isom_symbol("301.1"), Some(line(SymbolColour::Black, SymbolLayer::Black, 2, false, 0, false)));
    assert_eq!(isom_symbol("310"), Some(area(SymbolColour::Marsh, SymbolLayer::Marsh, 0)));
    assert_eq!(isom_symbol("529T"), Some(area(SymbolColour::Brown, SymbolLayer::Brown, 0)));
    assert_eq!(isom_symbol("101"), None);
}
