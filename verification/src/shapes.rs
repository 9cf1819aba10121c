//! The symbols of the topographic database's shape files: which colour, layer and pen a
//! feature is drawn with, from its class code (LUOKKA) and vertical level (VERSUH), or from
//! the ISOM code a configured mapping gives it.
use vstd::prelude::*;
use crate::text::str_eq;

verus! {

/// The colour a shape is drawn in.
#[derive(Debug, Clone, Copy, PartialEq, Eq, Structural)]
pub enum SymbolColour {
    White,
    Black,
    Brown,
    Yellow,
    Blue,
    Marsh,
    Olive,
    /// The configured building colour.
    Building,
}

/// The layer a shape is drawn on.
#[derive(Debug, Clone, Copy, PartialEq, Eq, Structural)]
pub enum SymbolLayer {
    Black,
    BlackTop,
    Blue,
    Brown,
    Marsh,
    Olive,
    Parkings,
    Yellow,
}

/// How a shape is drawn: colour and layer; pen width in pixels; dashed or not; an area
/// (filled polygon) with its border width, or a line; the width of a black road edge drawn
/// under the line (0 for none) and whether that edge goes on the top layer.
#[derive(Debug, Clone, Copy, PartialEq, Eq, Structural)]
pub struct ShapeSymbol {
    pub colour: SymbolColour,
    pub layer: SymbolLayer,
    pub thickness: u32,
    pub dashed: bool,
    pub area: bool,
    pub border: u32,
    pub road_edge: u32,
    pub edge_top: bool,
}

/// A line symbol.
pub open spec fn line_symbol(
    colour: SymbolColour,
    layer: SymbolLayer,
    thickness: u32,
    dashed: bool,
    road_edge: u32,
    edge_top: bool,
) -> ShapeSymbol {
    ShapeSymbol { colour, layer, thickness, dashed, area: false, border: 0, road_edge, edge_top }
}

/// An area symbol with its border width.
pub open spec fn area_symbol(colour: SymbolColour, layer: SymbolLayer, border: u32) -> ShapeSymbol {
    ShapeSymbol { colour, layer, thickness: 1, dashed: false, area: true, border, road_edge: 0, edge_top: false }
}

fn make_line(
    colour: SymbolColour,
    layer: SymbolLayer,
    thickness: u32,
    dashed: bool,
    road_edge: u32,
    edge_top: bool,
) -> (r: ShapeSymbol)
    ensures
        r == line_symbol(colour, layer, thickness, dashed, road_edge, edge_top),
{
    ShapeSymbol { colour, layer, thickness, dashed, area: false, border: 0, road_edge, edge_top }
}

fn make_area(colour: SymbolColour, layer: SymbolLayer, border: u32) -> (r: ShapeSymbol)
    ensures
        r == area_symbol(colour, layer, border),
{
    ShapeSymbol { colour, layer, thickness: 1, dashed: false, area: true, border, road_edge: 0, edge_top: false }
}

/// The black layer, or the top black layer for a feature above ground level.
pub open spec fn black_layer(top: bool) -> SymbolLayer {
    if top {
        SymbolLayer::BlackTop
    } else {
        SymbolLayer::Black
    }
}

fn black_layer_exec(top: bool) -> (r: SymbolLayer)
    ensures
        r == black_layer(top),
{
    if top {
        SymbolLayer::BlackTop
    } else {
        SymbolLayer::Black
    }
}

/// The class codes of water streams.
pub open spec fn is_streams(l: Seq<char>) -> bool {
    l == "36311"@ || l == "36312"@
}

fn in_streams(l: &str) -> (r: bool)
    ensures
        r == is_streams(l@),
{
    str_eq(l, "36311") || str_eq(l, "36312")
}

/// The class codes of roads.
pub open spec fn is_roads(l: Seq<char>) -> bool {
    l == "12111"@ || l == "12112"@ || l == "12121"@ || l == "12122"@ || l == "12131"@ || l == "12132"@
}

fn in_roads(l: &str) -> (r: bool)
    ensures
        r == is_roads(l@),
{
    str_eq(l, "12111") || str_eq(l, "12112") || str_eq(l, "12121") || str_eq(l, "12122") || str_eq(l, "12131") || str_eq(l, "12132")
}

/// The class codes of railroads.
pub open spec fn is_railroads(l: Seq<char>) -> bool {
    l == "14110"@ || l == "14111"@ || l == "14112"@ || l == "14121"@ || l == "14131"@
}

fn in_railroads(l: &str) -> (r: bool)
    ensures
        r == is_railroads(l@),
{
    str_eq(l, "14110") || str_eq(l, "14111") || str_eq(l, "14112") || str_eq(l, "14121") || str_eq(l, "14131")
}

/// The class codes of power lines.
pub open spec fn is_power_lines(l: Seq<char>) -> bool {
    l == "22300"@ || l == "22311"@ || l == "22312"@ || l == "44500"@
}

fn in_power_lines(l: &str) -> (r: bool)
    ensures
        r == is_power_lines(l@),
{
    str_eq(l, "22300") || str_eq(l, "22311") || str_eq(l, "22312") || str_eq(l, "44500")
}

/// The class codes of fences.
pub open spec fn is_fences(l: Seq<char>) -> bool {
    l == "44211"@ || l == "44213"@
}

fn in_fences(l: &str) -> (r: bool)
    ensures
        r == is_fences(l@),
{
    str_eq(l, "44211") || str_eq(l, "44213")
}

/// The class codes of lakes and other open water.
pub open spec fn is_lakes(l: Seq<char>) -> bool {
    l == "36200"@ || l == "36211"@ || l == "36313"@ || l == "38700"@ || l == "44300"@ || l == "45111"@ || l == "54112"@
}

fn in_lakes(l: &str) -> (r: bool)
    ensures
        r == is_lakes(l@),
{
    str_eq(l, "36200") || str_eq(l, "36211") || str_eq(l, "36313") || str_eq(l, "38700") || str_eq(l, "44300") || str_eq(l, "45111") || str_eq(l, "54112")
}

/// The class codes of impassable marshes.
pub open spec fn is_impassable_marshes(l: Seq<char>) -> bool {
    l == "35421"@ || l == "38300"@
}

fn in_impassable_marshes(l: &str) -> (r: bool)
    ensures
        r == is_impassable_marshes(l@),
{
    str_eq(l, "35421") || str_eq(l, "38300")
}

/// The class codes of marshes and marshy ground.
pub open spec fn is_marshes(l: Seq<char>) -> bool {
    l == "35400"@ || l == "35411"@ || l == "35300"@ || l == "35412"@ || l == "35422"@
}

fn in_marshes(l: &str) -> (r: bool)
    ensures
        r == is_marshes(l@),
{
    str_eq(l, "35400") || str_eq(l, "35411") || str_eq(l, "35300") || str_eq(l, "35412") || str_eq(l, "35422")
}

/// The class codes of buildings.
pub open spec fn is_buildings(l: Seq<char>) -> bool {
    l == "42210"@ || l == "42211"@ || l == "42212"@ || l == "42220"@ || l == "42221"@ || l == "42222"@ || l == "42230"@ || l == "42231"@ || l == "42232"@ || l == "42240"@ || l == "42241"@ || l == "42242"@ || l == "42270"@ || l == "42250"@ || l == "42251"@ || l == "42252"@ || l == "42260"@ || l == "42261"@ || l == "42262"@
}

fn in_buildings(l: &str) -> (r: bool)
    ensures
        r == is_buildings(l@),
{
    str_eq(l, "42210") || str_eq(l, "42211") || str_eq(l, "42212") || str_eq(l, "42220") || str_eq(l, "42221") || str_eq(l, "42222") || str_eq(l, "42230") || str_eq(l, "42231") || str_eq(l, "42232") || str_eq(l, "42240") || str_eq(l, "42241") || str_eq(l, "42242") || str_eq(l, "42270") || str_eq(l, "42250") || str_eq(l, "42251") || str_eq(l, "42252") || str_eq(l, "42260") || str_eq(l, "42261") || str_eq(l, "42262")
}

/// The class codes of settlements.
pub open spec fn is_settlements(l: Seq<char>) -> bool {
    l == "32000"@ || l == "40200"@ || l == "62100"@ || l == "32410"@ || l == "32411"@ || l == "32412"@ || l == "32413"@ || l == "32414"@ || l == "32415"@ || l == "32416"@ || l == "32417"@ || l == "32418"@
}

fn in_settlements(l: &str) -> (r: bool)
    ensures
        r == is_settlements(l@),
{
    str_eq(l, "32000") || str_eq(l, "40200") || str_eq(l, "62100") || str_eq(l, "32410") || str_eq(l, "32411") || str_eq(l, "32412") || str_eq(l, "32413") || str_eq(l, "32414") || str_eq(l, "32415") || str_eq(l, "32416") || str_eq(l, "32417") || str_eq(l, "32418")
}

/// The class codes of airport runways and car parks.
pub open spec fn is_parkings(l: Seq<char>) -> bool {
    l == "32411"@ || l == "32412"@ || l == "32415"@ || l == "32417"@ || l == "32421"@
}

fn in_parkings(l: &str) -> (r: bool)
    ensures
        r == is_parkings(l@),
{
    str_eq(l, "32411") || str_eq(l, "32412") || str_eq(l, "32415") || str_eq(l, "32417") || str_eq(l, "32421")
}

/// The class codes of large paths.
pub open spec fn is_large_paths(l: Seq<char>) -> bool {
    l == "12141"@ || l == "12314"@
}

fn in_large_paths(l: &str) -> (r: bool)
    ensures
        r == is_large_paths(l@),
{
    str_eq(l, "12141") || str_eq(l, "12314")
}

/// The symbol of a shape of the topographic database by its class code and vertical level
/// (a level of -11 leaves roads, paths and railroads out; a positive level draws them on the
/// top layer). Later rules win where class lists overlap; `None` for a class that is not
/// drawn.
pub open spec fn shape_symbol_of(luokka: Seq<char>, versuh: i64) -> Option<ShapeSymbol> {
    let l = luokka;
    let kept = versuh != -11;
    let top = versuh > 0;
    if is_parkings(l) {
        Some(area_symbol(SymbolColour::Brown, SymbolLayer::Parkings, 0))
    } else if is_settlements(l) {
        Some(area_symbol(SymbolColour::Olive, SymbolLayer::Olive, 0))
    } else if is_buildings(l) {
        Some(area_symbol(SymbolColour::Building, SymbolLayer::Black, 0))
    } else if is_marshes(l) {
        Some(area_symbol(SymbolColour::Marsh, SymbolLayer::Marsh, 0))
    } else if is_impassable_marshes(l) {
        Some(area_symbol(SymbolColour::Marsh, SymbolLayer::Marsh, 3))
    } else if is_lakes(l) {
        Some(area_symbol(SymbolColour::Blue, SymbolLayer::Blue, 5))
    } else if l == "32611"@ {
        Some(area_symbol(SymbolColour::Yellow, SymbolLayer::Yellow, 3))
    } else if is_fences(l) {
        Some(line_symbol(SymbolColour::Black, SymbolLayer::BlackTop, 7, false, 0, false))
    } else if is_power_lines(l) {
        Some(line_symbol(SymbolColour::Black, SymbolLayer::BlackTop, 5, false, 0, false))
    } else if l == "12313"@ && kept {
        Some(line_symbol(SymbolColour::Black, black_layer(top), 5, true, 0, false))
    } else if l == "12312"@ && kept {
        Some(line_symbol(SymbolColour::Black, black_layer(top), 6, true, 0, false))
    } else if is_railroads(l) && kept {
        Some(line_symbol(SymbolColour::White, black_layer(top), 3, false, 18, top))
    } else if is_roads(l) && kept {
        Some(
            if top {
                line_symbol(SymbolColour::Brown, SymbolLayer::Brown, 14, false, 26, true)
            } else {
                line_symbol(SymbolColour::Brown, SymbolLayer::Brown, 20, false, 26, false)
            },
        )
    } else if is_large_paths(l) && kept {
        Some(line_symbol(SymbolColour::Black, black_layer(top), 12, false, 0, false))
    } else if l == "12316"@ && kept {
        Some(line_symbol(SymbolColour::Black, black_layer(top), 12, true, 0, false))
    } else if is_streams(l) {
        Some(line_symbol(SymbolColour::Marsh, SymbolLayer::Blue, 4, false, 0, false))
    } else {
        None
    }
}

/// The symbol of a shape of the topographic database (see [`shape_symbol_of`]).
pub fn shape_symbol(luokka: &str, versuh: i64) -> (r: Option<ShapeSymbol>)
    ensures
        r == shape_symbol_of(luokka@, versuh),
{
    let l = luokka;
    let kept = versuh != -11;
    let top = versuh > 0;
    if in_parkings(l) {
        Some(make_area(SymbolColour::Brown, SymbolLayer::Parkings, 0))
    } else if in_settlements(l) {
        Some(make_area(SymbolColour::Olive, SymbolLayer::Olive, 0))
    } else if in_buildings(l) {
        Some(make_area(SymbolColour::Building, SymbolLayer::Black, 0))
    } else if in_marshes(l) {
        Some(make_area(SymbolColour::Marsh, SymbolLayer::Marsh, 0))
    } else if in_impassable_marshes(l) {
        Some(make_area(SymbolColour::Marsh, SymbolLayer::Marsh, 3))
    } else if in_lakes(l) {
        Some(make_area(SymbolColour::Blue, SymbolLayer::Blue, 5))
    } else if str_eq(l, "32611") {
        Some(make_area(SymbolColour::Yellow, SymbolLayer::Yellow, 3))
    } else if in_fences(l) {
        Some(make_line(SymbolColour::Black, SymbolLayer::BlackTop, 7, false, 0, false))
    } else if in_power_lines(l) {
        Some(make_line(SymbolColour::Black, SymbolLayer::BlackTop, 5, false, 0, false))
    } else if str_eq(l, "12313") && kept {
        Some(make_line(SymbolColour::Black, black_layer_exec(top), 5, true, 0, false))
    } else if str_eq(l, "12312") && kept {
        Some(make_line(SymbolColour::Black, black_layer_exec(top), 6, true, 0, false))
    } else if in_railroads(l) && kept {
        Some(make_line(SymbolColour::White, black_layer_exec(top), 3, false, 18, top))
    } else if in_roads(l) && kept {
        if top {
            Some(make_line(SymbolColour::Brown, SymbolLayer::Brown, 14, false, 26, true))
        } else {
            Some(make_line(SymbolColour::Brown, SymbolLayer::Brown, 20, false, 26, false))
        }
    } else if in_large_paths(l) && kept {
        Some(make_line(SymbolColour::Black, black_layer_exec(top), 12, false, 0, false))
    } else if str_eq(l, "12316") && kept {
        Some(make_line(SymbolColour::Black, black_layer_exec(top), 12, true, 0, false))
    } else if in_streams(l) {
        Some(make_line(SymbolColour::Marsh, SymbolLayer::Blue, 4, false, 0, false))
    } else {
        None
    }
}

/// Whether a class code is among the configured ones to leave out.
pub open spec fn is_skipped(skipped: Seq<String>, luokka: Seq<char>) -> bool {
    exists|i: int| 0 <= i < skipped.len() && (#[trigger] skipped[i])@ == luokka
}

/// The symbol of a shape of the topographic database, `None` for the configured class
/// codes to leave out (see [`shape_symbol_of`]).
pub fn mtk_symbol(luokka: &str, versuh: i64, skipped: &Vec<String>) -> (r: Option<ShapeSymbol>)
    ensures
        r == if is_skipped(skipped@, luokka@) {
            None
        } else {
            shape_symbol_of(luokka@, versuh)
        },
{
    let mut i: usize = 0;
    while i < skipped.len()
        invariant
            i <= skipped@.len(),
            forall|k: int| 0 <= k < i ==> (#[trigger] skipped@[k])@ != luokka@,
        decreases skipped@.len() - i,
    {
        if str_eq(skipped[i].as_str(), luokka) {
            assert(skipped@[i as int]@ == luokka@);
            return None;
        }
        i = i + 1;
    }
    shape_symbol(luokka, versuh)
}

/// The symbol a configured mapping's ISOM code gives a shape; `None` for a code that is not
/// drawn.
pub open spec fn isom_symbol_of(isom: Seq<char>) -> Option<ShapeSymbol> {
    if isom == "306"@ {
        Some(line_symbol(SymbolColour::Marsh, SymbolLayer::Blue, 4, false, 0, false))
    } else if isom == "505"@ {
        Some(line_symbol(SymbolColour::Black, SymbolLayer::Black, 12, true, 0, false))
    } else if isom == "505T"@ {
        Some(line_symbol(SymbolColour::Black, SymbolLayer::BlackTop, 12, true, 0, false))
    } else if isom == "504"@ {
        Some(line_symbol(SymbolColour::Black, SymbolLayer::Black, 12, false, 0, false))
    } else if isom == "504T"@ {
        Some(line_symbol(SymbolColour::Black, SymbolLayer::BlackTop, 12, false, 0, false))
    } else if isom == "503"@ {
        Some(line_symbol(SymbolColour::Brown, SymbolLayer::Brown, 20, false, 26, false))
    } else if isom == "503T"@ {
        Some(line_symbol(SymbolColour::Brown, SymbolLayer::Brown, 14, false, 26, true))
    } else if isom == "515"@ {
        Some(line_symbol(SymbolColour::White, SymbolLayer::Black, 3, false, 18, false))
    } else if isom == "515T"@ {
        Some(line_symbol(SymbolColour::White, SymbolLayer::BlackTop, 3, false, 18, true))
    } else if isom == "507"@ {
        Some(line_symbol(SymbolColour::Black, SymbolLayer::Black, 6, true, 0, false))
    } else if isom == "507T"@ {
        Some(line_symbol(SymbolColour::Black, SymbolLayer::BlackTop, 6, true, 0, false))
    } else if isom == "516"@ {
        Some(line_symbol(SymbolColour::Black, SymbolLayer::BlackTop, 5, false, 0, false))
    } else if isom == "524"@ {
        Some(line_symbol(SymbolColour::Black, SymbolLayer::Black, 7, false, 0, false))
    } else if isom == "414"@ {
        Some(line_symbol(SymbolColour::Black, SymbolLayer::Black, 4, false, 0, false))
    } else if isom == "401"@ {
        Some(area_symbol(SymbolColour::Yellow, SymbolLayer::Yellow, 3))
    } else if isom == "301"@ {
        Some(area_symbol(SymbolColour::Blue, SymbolLayer::Blue, 5))
    } else if isom == "310"@ {
        Some(area_symbol(SymbolColour::Marsh, SymbolLayer::Marsh, 0))
    } else if isom == "526"@ {
        Some(area_symbol(SymbolColour::Building, SymbolLayer::Black, 0))
    } else if isom == "527"@ {
        Some(area_symbol(SymbolColour::Olive, SymbolLayer::Olive, 0))
    } else if isom == "529.1"@ || isom == "301.1"@ {
        Some(line_symbol(SymbolColour::Black, SymbolLayer::Black, 2, false, 0, false))
    } else if isom == "529"@ {
        Some(area_symbol(SymbolColour::Brown, SymbolLayer::Parkings, 0))
    } else if isom == "529T"@ {
        Some(area_symbol(SymbolColour::Brown, SymbolLayer::Brown, 0))
    } else {
        None
    }
}

/// The symbol a configured mapping's ISOM code gives a shape (see [`isom_symbol_of`]).
pub fn isom_symbol(isom: &str) -> (r: Option<ShapeSymbol>)
    ensures
        r == isom_symbol_of(isom@),
{
    let c = isom;
    if str_eq(c, "306") {
        Some(make_line(SymbolColour::Marsh, SymbolLayer::Blue, 4, false, 0, false))
    } else if str_eq(c, "505") {
        Some(make_line(SymbolColour::Black, SymbolLayer::Black, 12, true, 0, false))
    } else if str_eq(c, "505T") {
        Some(make_line(SymbolColour::Black, SymbolLayer::BlackTop, 12, true, 0, false))
    } else if str_eq(c, "504") {
        Some(make_line(SymbolColour::Black, SymbolLayer::Black, 12, false, 0, false))
    } else if str_eq(c, "504T") {
        Some(make_line(SymbolColour::Black, SymbolLayer::BlackTop, 12, false, 0, false))
    } else if str_eq(c, "503") {
        Some(make_line(SymbolColour::Brown, SymbolLayer::Brown, 20, false, 26, false))
    } else if str_eq(c, "503T") {
        Some(make_line(SymbolColour::Brown, SymbolLayer::Brown, 14, false, 26, true))
    } else if str_eq(c, "515") {
        Some(make_line(SymbolColour::White, SymbolLayer::Black, 3, false, 18, false))
    } else if str_eq(c, "515T") {
        Some(make_line(SymbolColour::White, SymbolLayer::BlackTop, 3, false, 18, true))
    } else if str_eq(c, "507") {
        Some(make_line(SymbolColour::Black, SymbolLayer::Black, 6, true, 0, false))
    } else if str_eq(c, "507T") {
        Some(make_line(SymbolColour::Black, SymbolLayer::BlackTop, 6, true, 0, false))
    } else if str_eq(c, "516") {
        Some(make_line(SymbolColour::Black, SymbolLayer::BlackTop, 5, false, 0, false))
    } else if str_eq(c, "524") {
        Some(make_line(SymbolColour::Black, SymbolLayer::Black, 7, false, 0, false))
    } else if str_eq(c, "414") {
        Some(make_line(SymbolColour::Black, SymbolLayer::Black, 4, false, 0, false))
    } else if str_eq(c, "401") {
        Some(make_area(SymbolColour::Yellow, SymbolLayer::Yellow, 3))
    } else if str_eq(c, "301") {
        Some(make_area(SymbolColour::Blue, SymbolLayer::Blue, 5))
    } else if str_eq(c, "310") {
        Some(make_area(SymbolColour::Marsh, SymbolLayer::Marsh, 0))
    } else if str_eq(c, "526") {
        Some(make_area(SymbolColour::Building, SymbolLayer::Black, 0))
    } else if str_eq(c, "527") {
        Some(make_area(SymbolColour::Olive, SymbolLayer::Olive, 0))
    } else if str_eq(c, "529.1") || str_eq(c, "301.1") {
        Some(make_line(SymbolColour::Black, SymbolLayer::Black, 2, false, 0, false))
    } else if str_eq(c, "529") {
        Some(make_area(SymbolColour::Brown, SymbolLayer::Parkings, 0))
    } else if str_eq(c, "529T") {
        Some(make_area(SymbolColour::Brown, SymbolLayer::Brown, 0))
    } else {
        None
    }
}




/// Character `i` of a code as a number, 0 past its end.
pub open spec fn code_char(s: Seq<char>, i: int) -> int {
    if 0 <= i < s.len() {
        s[i] as int
    } else {
        0
    }
}

/// A number that tells the codes of this module apart: their length and first six
/// characters.
pub open spec fn code_key(s: Seq<char>) -> int {
    s.len() + 8 * (code_char(s, 0) + 256 * (code_char(s, 1) + 256 * (code_char(s, 2) + 256 * (
    code_char(s, 3) + 256 * (code_char(s, 4) + 256 * code_char(s, 5))))))
}

/// The keys of the codes this module compares.
proof fn lemma_code_keys()
    ensures
        code_key("12111"@) == 1690229641613,
        code_key("12112"@) == 1724589379981,
        code_key("12121"@) == 1690363859341,
        code_key("12122"@) == 1724723597709,
        code_key("12131"@) == 1690498077069,
        code_key("12132"@) == 1724857815437,
        code_key("12141"@) == 1690632294797,
        code_key("12312"@) == 1724590428557,
        code_key("12313"@) == 1758950166925,
        code_key("12314"@) == 1793309905293,
        code_key("12316"@) == 1862029382029,
        code_key("14110"@) == 1655869907341,
        code_key("14111"@) == 1690229645709,
        code_key("14112"@) == 1724589384077,
        code_key("14121"@) == 1690363863437,
        code_key("14131"@) == 1690498081165,
        code_key("22300"@) == 1655736734101,
        code_key("22311"@) == 1690230690197,
        code_key("22312"@) == 1724590428565,
        code_key("301"@) == 25788827,
        code_key("301.1"@) == 1689826984349,
        code_key("306"@) == 28410267,
        code_key("310"@) == 25266587,
        code_key("32000"@) == 1655735161245,
        code_key("32410"@) == 1655871476125,
        code_key("32411"@) == 1690231214493,
        code_key("32412"@) == 1724590952861,
        code_key("32413"@) == 1758950691229,
        code_key("32414"@) == 1793310429597,
        code_key("32415"@) == 1827670167965,
        code_key("32416"@) == 1862029906333,
        code_key("32417"@) == 1896389644701,
        code_key("32418"@) == 1930749383069,
        code_key("32421"@) == 1690365432221,
        code_key("32611"@) == 1690232263069,
        code_key("35300"@) == 1655736740253,
        code_key("35400"@) == 1655737264541,
        code_key("35411"@) == 1690231220637,
        code_key("35412"@) == 1724590959005,
        code_key("35421"@) == 1690365438365,
        code_key("35422"@) == 1724725176733,
        code_key("36200"@) == 1655736218013,
        code_key("36211"@) == 1690230174109,
        code_key("36311"@) == 1690230698397,
        code_key("36312"@) == 1724590436765,
        code_key("36313"@) == 1758950175133,
        code_key("38300"@) == 1655736746397,
        code_key("38700"@) == 1655738843549,
        code_key("401"@) == 25788835,
        code_key("40200"@) == 1655736205733,
        code_key("414"@) == 27363747,
        code_key("42210"@) == 1655870427557,
        code_key("42211"@) == 1690230165925,
        code_key("42212"@) == 1724589904293,
        code_key("42220"@) == 1656004645285,
        code_key("42221"@) == 1690364383653,
        code_key("42222"@) == 1724724122021,
        code_key("42230"@) == 1656138863013,
        code_key("42231"@) == 1690498601381,
        code_key("42232"@) == 1724858339749,
        code_key("42240"@) == 1656273080741,
        code_key("42241"@) == 1690632819109,
        code_key("42242"@) == 1724992557477,
        code_key("42250"@) == 1656407298469,
        code_key("42251"@) == 1690767036837,
        code_key("42252"@) == 1725126775205,
        code_key("42260"@) == 1656541516197,
        code_key("42261"@) == 1690901254565,
        code_key("42262"@) == 1725260992933,
        code_key("42270"@) == 1656675733925,
        code_key("44211"@) == 1690230170021,
        code_key("44213"@) == 1758949646757,
        code_key("44300"@) == 1655736738213,
        code_key("44500"@) == 1655737786789,
        code_key("45111"@) == 1690229647781,
        code_key("503"@) == 26837419,
        code_key("503T"@) == 11301126572,
        code_key("504"@) == 27361707,
        code_key("504T"@) == 11301650860,
        code_key("505"@) == 27885995,
        code_key("505T"@) == 11302175148,
        code_key("507"@) == 28934571,
        code_key("507T"@) == 11303223724,
        code_key("515"@) == 27888043,
        code_key("515T"@) == 11302177196,
        code_key("516"@) == 28412331,
        code_key("524"@) == 27365803,
        code_key("526"@) == 28414379,
        code_key("527"@) == 28938667,
        code_key("529"@) == 29987243,
        code_key("529.1"@) == 1689831182765,
        code_key("529T"@) == 11304276396,
        code_key("54112"@) == 1724589384109,
        code_key("62100"@) == 1655735685557,
{
    reveal_strlit("12111");
    reveal_strlit("12112");
    reveal_strlit("12121");
    reveal_strlit("12122");
    reveal_strlit("12131");
    reveal_strlit("12132");
    reveal_strlit("12141");
    reveal_strlit("12312");
    reveal_strlit("12313");
    reveal_strlit("12314");
    reveal_strlit("12316");
    reveal_strlit("14110");
    reveal_strlit("14111");
    reveal_strlit("14112");
    reveal_strlit("14121");
    reveal_strlit("14131");
    reveal_strlit("22300");
    reveal_strlit("22311");
    reveal_strlit("22312");
    reveal_strlit("301");
    reveal_strlit("301.1");
    reveal_strlit("306");
    reveal_strlit("310");
    reveal_strlit("32000");
    reveal_strlit("32410");
    reveal_strlit("32411");
    reveal_strlit("32412");
    reveal_strlit("32413");
    reveal_strlit("32414");
    reveal_strlit("32415");
    reveal_strlit("32416");
    reveal_strlit("32417");
    reveal_strlit("32418");
    reveal_strlit("32421");
    reveal_strlit("32611");
    reveal_strlit("35300");
    reveal_strlit("35400");
    reveal_strlit("35411");
    reveal_strlit("35412");
    reveal_strlit("35421");
    reveal_strlit("35422");
    reveal_strlit("36200");
    reveal_strlit("36211");
    reveal_strlit("36311");
    reveal_strlit("36312");
    reveal_strlit("36313");
    reveal_strlit("38300");
    reveal_strlit("38700");
    reveal_strlit("401");
    reveal_strlit("40200");
    reveal_strlit("414");
    reveal_strlit("42210");
    reveal_strlit("42211");
    reveal_strlit("42212");
    reveal_strlit("42220");
    reveal_strlit("42221");
    reveal_strlit("42222");
    reveal_strlit("42230");
    reveal_strlit("42231");
    reveal_strlit("42232");
    reveal_strlit("42240");
    reveal_strlit("42241");
    reveal_strlit("42242");
    reveal_strlit("42250");
    reveal_strlit("42251");
    reveal_strlit("42252");
    reveal_strlit("42260");
    reveal_strlit("42261");
    reveal_strlit("42262");
    reveal_strlit("42270");
    reveal_strlit("44211");
    reveal_strlit("44213");
    reveal_strlit("44300");
    reveal_strlit("44500");
    reveal_strlit("45111");
    reveal_strlit("503");
    reveal_strlit("503T");
    reveal_strlit("504");
    reveal_strlit("504T");
    reveal_strlit("505");
    reveal_strlit("505T");
    reveal_strlit("507");
    reveal_strlit("507T");
    reveal_strlit("515");
    reveal_strlit("515T");
    reveal_strlit("516");
    reveal_strlit("524");
    reveal_strlit("526");
    reveal_strlit("527");
    reveal_strlit("529");
    reveal_strlit("529.1");
    reveal_strlit("529T");
    reveal_strlit("54112");
    reveal_strlit("62100");
}

/// A feature gets the same symbol whether the database chooses it by the feature's class
/// code or a configured mapping chooses it by the ISOM code of that class: lakes are 301,
/// fields 401, marshes 310, buildings 526, settlements 527, car parks 529, water streams 306
/// and power lines 516; roads, railroads, large paths and paths that are not left out are
/// 503, 515, 504, 505 and 507, with a "T" (top layer) when above ground level.
pub proof fn lemma_class_code_and_isom_code_agree(l: Seq<char>, v: i64)
    ensures
        is_lakes(l) ==> shape_symbol_of(l, v) == isom_symbol_of("301"@),
        l == "32611"@ ==> shape_symbol_of(l, v) == isom_symbol_of("401"@),
        is_marshes(l) ==> shape_symbol_of(l, v) == isom_symbol_of("310"@),
        is_buildings(l) ==> shape_symbol_of(l, v) == isom_symbol_of("526"@),
        is_settlements(l) && !is_parkings(l) ==> shape_symbol_of(l, v) == isom_symbol_of("527"@),
        is_parkings(l) ==> shape_symbol_of(l, v) == isom_symbol_of("529"@),
        is_streams(l) ==> shape_symbol_of(l, v) == isom_symbol_of("306"@),
        is_power_lines(l) ==> shape_symbol_of(l, v) == isom_symbol_of("516"@),
        v != -11 && is_roads(l) ==> shape_symbol_of(l, v) == isom_symbol_of(
            if v > 0 {
                "503T"@
            } else {
                "503"@
            },
        ),
        v != -11 && is_railroads(l) ==> shape_symbol_of(l, v) == isom_symbol_of(
            if v > 0 {
                "515T"@
            } else {
                "515"@
            },
        ),
        v != -11 && is_large_paths(l) ==> shape_symbol_of(l, v) == isom_symbol_of(
            if v > 0 {
                "504T"@
            } else {
                "504"@
            },
        ),
        v != -11 && l == "12316"@ ==> shape_symbol_of(l, v) == isom_symbol_of(
            if v > 0 {
                "505T"@
            } else {
                "505"@
            },
        ),
        v != -11 && l == "12312"@ ==> shape_symbol_of(l, v) == isom_symbol_of(
            if v > 0 {
                "507T"@
            } else {
                "507"@
            },
        ),
        v == -11 && (is_roads(l) || is_railroads(l) || is_large_paths(l) || l == "12316"@ || l
            == "12312"@) ==> shape_symbol_of(l, v) is None,
{
    lemma_code_keys();
}


/// A mapping's "T" variant of a black line code draws the same line on the top layer (a
/// railroad's black edge too); the top road keeps its black edge but narrows from 20 to 14
/// and puts the edge on top.
pub proof fn lemma_top_variants()
    ensures
        isom_symbol_of("504T"@) == Some(ShapeSymbol { layer: SymbolLayer::BlackTop, ..isom_symbol_of("504"@)->0 }),
        isom_symbol_of("505T"@) == Some(ShapeSymbol { layer: SymbolLayer::BlackTop, ..isom_symbol_of("505"@)->0 }),
        isom_symbol_of("507T"@) == Some(ShapeSymbol { layer: SymbolLayer::BlackTop, ..isom_symbol_of("507"@)->0 }),
        isom_symbol_of("515T"@) == Some(
            ShapeSymbol { layer: SymbolLayer::BlackTop, edge_top: true, ..isom_symbol_of("515"@)->0 },
        ),
        isom_symbol_of("503T"@) == Some(
            ShapeSymbol { thickness: 14, edge_top: true, ..isom_symbol_of("503"@)->0 },
        ),
        isom_symbol_of("503"@)->0.road_edge > 0 && isom_symbol_of("503"@)->0.thickness == 20,
{
    lemma_code_keys();
}

} // verus!
