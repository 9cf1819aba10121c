//! GeoJSON output for vector features: the list of outputs, the ISOM symbol code of each
//! layer, and the text framing of a FeatureCollection.
use vstd::prelude::*;
use vstd::string::StringExecFns;
use crate::text::str_eq;
use crate::geometry::{
    Classification, layer_name, spec_is_contour, spec_is_depression, spec_is_index,
    spec_is_intermed,
};

verus! {

/// One GeoJSON vector output: its file-name suffix and whether it is also carried by
/// `merged.dxf.bin` (and thus skipped from the merged-GeoJSON route when that file exists).
pub struct GeoJsonOutput {
    pub name: &'static str,
    pub skip_when_merged_bin: bool,
}

/// The name of the `i`th GeoJSON output.
pub open spec fn output_name(i: int) -> Seq<char> {
    if i == 0 {
        "contours"@
    } else if i == 1 {
        "formlines"@
    } else if i == 2 {
        "dotknolls"@
    } else if i == 3 {
        "cliffs"@
    } else if i == 4 {
        "vegetation"@
    } else if i == 5 {
        "yellow"@
    } else if i == 6 {
        "undergrowth"@
    } else if i == 7 {
        "osm_lines"@
    } else {
        "osm_areas"@
    }
}

/// Whether the `i`th GeoJSON output also rides `merged.dxf.bin`.
pub open spec fn output_skips_when_merged(i: int) -> bool {
    i == 0 || i == 1 || i == 3
}

/// The GeoJSON vector outputs, in order.
pub fn geojson_outputs() -> (r: Vec<GeoJsonOutput>)
    ensures
        r@.len() == 9,
        forall|i: int|
            0 <= i < 9 ==> (#[trigger] r@[i]).name@ == output_name(i) && r@[i].skip_when_merged_bin
                == output_skips_when_merged(i),
{
    let r = vec![
        GeoJsonOutput { name: "contours", skip_when_merged_bin: true },
        GeoJsonOutput { name: "formlines", skip_when_merged_bin: true },
        GeoJsonOutput { name: "dotknolls", skip_when_merged_bin: false },
        GeoJsonOutput { name: "cliffs", skip_when_merged_bin: true },
        GeoJsonOutput { name: "vegetation", skip_when_merged_bin: false },
        GeoJsonOutput { name: "yellow", skip_when_merged_bin: false },
        GeoJsonOutput { name: "undergrowth", skip_when_merged_bin: false },
        GeoJsonOutput { name: "osm_lines", skip_when_merged_bin: false },
        GeoJsonOutput { name: "osm_areas", skip_when_merged_bin: false },
    ];
    r
}

/// No two GeoJSON outputs share a name.
pub proof fn lemma_output_names_distinct(i: int, j: int)
    requires
        0 <= i < 9,
        0 <= j < 9,
        i != j,
    ensures
        output_name(i) != output_name(j),
{
    reveal_strlit("contours");
    reveal_strlit("formlines");
    reveal_strlit("dotknolls");
    reveal_strlit("cliffs");
    reveal_strlit("vegetation");
    reveal_strlit("yellow");
    reveal_strlit("undergrowth");
    reveal_strlit("osm_lines");
    reveal_strlit("osm_areas");
    if output_name(i) == output_name(j) {
        assert(output_name(i).len() == output_name(j).len());
        assert(output_name(i)[0] == output_name(j)[0]);
        assert(output_name(i)[4] == output_name(j)[4]);
    }
}

/// ISOM 2017-2 symbol code for a layer name, where one exists.
/// 101 contour, 102 index contour, 103 form line, 109 small knoll,
/// 111 small depression, 201 impassable cliff, 202 rock face. The slope line of a
/// depression is part of symbol 101.
pub open spec fn isom_code_of_layer(layer: Seq<char>) -> Option<Seq<char>> {
    if layer == "cont"@ || layer == "contour"@ || layer == "depression"@ || layer
        == "slope_line"@ {
        Some("101"@)
    } else if layer == "contour_index"@ || layer == "depression_index"@ {
        Some("102"@)
    } else if layer == "contour_intermed"@ || layer == "contour_index_intermed"@ || layer
        == "depression_intermed"@ || layer == "depression_index_intermed"@ || layer == "formline"@
        || layer == "formline_depression"@ {
        Some("103"@)
    } else if layer == "dotknoll"@ || layer == "uglydotknoll"@ {
        Some("109"@)
    } else if layer == "udepression"@ || layer == "uglyudepression"@ {
        Some("111"@)
    } else if layer == "cliff2"@ {
        Some("202"@)
    } else if layer == "cliff3"@ || layer == "cliff4"@ {
        Some("201"@)
    } else {
        None
    }
}

/// Which layers carry the cliff codes.
proof fn lemma_cliff_codes_of_layer(layer: Seq<char>)
    ensures
        isom_code_of_layer(layer) == Some("202"@) <==> layer == "cliff2"@,
        isom_code_of_layer(layer) == Some("201"@) <==> (layer == "cliff3"@ || layer == "cliff4"@),
{
    reveal_strlit("101");
    reveal_strlit("102");
    reveal_strlit("103");
    reveal_strlit("109");
    reveal_strlit("111");
    reveal_strlit("201");
    reveal_strlit("202");
    reveal_strlit("cont");
    reveal_strlit("contour");
    reveal_strlit("depression");
    reveal_strlit("slope_line");
    reveal_strlit("contour_index");
    reveal_strlit("depression_index");
    reveal_strlit("contour_intermed");
    reveal_strlit("contour_index_intermed");
    reveal_strlit("depression_intermed");
    reveal_strlit("depression_index_intermed");
    reveal_strlit("formline");
    reveal_strlit("formline_depression");
    reveal_strlit("dotknoll");
    reveal_strlit("uglydotknoll");
    reveal_strlit("udepression");
    reveal_strlit("uglyudepression");
    reveal_strlit("cliff2");
    reveal_strlit("cliff3");
    reveal_strlit("cliff4");
    assert("201"@ != "101"@) by {
        assert("201"@[0] != "101"@[0]);
    }
    assert("201"@ != "102"@) by {
        assert("201"@[0] != "102"@[0]);
    }
    assert("201"@ != "103"@) by {
        assert("201"@[0] != "103"@[0]);
    }
    assert("201"@ != "109"@) by {
        assert("201"@[0] != "109"@[0]);
    }
    assert("201"@ != "111"@) by {
        assert("201"@[0] != "111"@[0]);
    }
    assert("201"@ != "202"@) by {
        assert("201"@[2] != "202"@[2]);
    }
    assert("202"@ != "101"@) by {
        assert("202"@[0] != "101"@[0]);
    }
    assert("202"@ != "102"@) by {
        assert("202"@[0] != "102"@[0]);
    }
    assert("202"@ != "103"@) by {
        assert("202"@[0] != "103"@[0]);
    }
    assert("202"@ != "109"@) by {
        assert("202"@[0] != "109"@[0]);
    }
    assert("202"@ != "111"@) by {
        assert("202"@[0] != "111"@[0]);
    }
    assert("202"@ != "201"@) by {
        assert("202"@[2] != "201"@[2]);
    }
    assert("cliff3"@ != "cliff2"@) by {
        assert("cliff3"@[5] != "cliff2"@[5]);
    }
    assert("cliff4"@ != "cliff2"@) by {
        assert("cliff4"@[5] != "cliff2"@[5]);
    }
    if layer == "cliff2"@ || layer == "cliff3"@ || layer == "cliff4"@ {
        assert(layer.len() == 6);
        assert(layer != "cont"@ && layer != "contour"@ && layer != "depression"@ && layer
            != "slope_line"@);
        assert(layer != "contour_index"@ && layer != "depression_index"@);
        assert(layer != "contour_intermed"@ && layer != "contour_index_intermed"@ && layer
            != "depression_intermed"@ && layer != "depression_index_intermed"@ && layer
            != "formline"@ && layer != "formline_depression"@);
        assert(layer != "dotknoll"@ && layer != "uglydotknoll"@);
        assert(layer != "udepression"@ && layer != "uglyudepression"@);
    }
}

/// Cliffs by height: every layer the impassable cliffs are written to ("cliff3", "cliff4",
/// the layers of `Cliff3` and `Cliff4`) carries ISOM 201, the rock-face layer ("cliff2", of
/// `Cliff2`) carries 202, and no other layer carries either code.
pub proof fn lemma_cliff_symbol_codes(layer: Seq<char>)
    ensures
        isom_code_of_layer(layer) == Some("202"@) <==> layer == "cliff2"@,
        isom_code_of_layer(layer) == Some("201"@) <==> (layer == "cliff3"@ || layer == "cliff4"@),
        isom_code_of_layer(layer_name(Classification::Cliff2)) == Some("202"@),
        isom_code_of_layer(layer_name(Classification::Cliff3)) == Some("201"@),
        isom_code_of_layer(layer_name(Classification::Cliff4)) == Some("201"@),
{
    lemma_cliff_codes_of_layer(layer);
    lemma_cliff_codes_of_layer("cliff2"@);
    lemma_cliff_codes_of_layer("cliff3"@);
    lemma_cliff_codes_of_layer("cliff4"@);
}

/// The symbol code a contour or depression is drawn with: intermediate (half-interval)
/// lines are form lines (103), other index lines are index contours (102), and the rest
/// are contours (101).
pub proof fn lemma_contour_symbol_codes(c: Classification)
    requires
        spec_is_contour(c) || spec_is_depression(c),
    ensures
        isom_code_of_layer(layer_name(c)) == Some(
            if spec_is_intermed(c) {
                "103"@
            } else if spec_is_index(c) {
                "102"@
            } else {
                "101"@
            },
        ),
{
    reveal_strlit("cont");
    reveal_strlit("contour");
    reveal_strlit("contour_index");
    reveal_strlit("contour_intermed");
    reveal_strlit("contour_index_intermed");
    reveal_strlit("depression");
    reveal_strlit("depression_index");
    reveal_strlit("depression_intermed");
    reveal_strlit("depression_index_intermed");
    reveal_strlit("slope_line");
    reveal_strlit("formline");
    reveal_strlit("formline_depression");
    let l = layer_name(c);
    assert("cont"@.len() == 4);
    assert("contour"@.len() == 7);
    assert("contour_index"@.len() == 13);
    assert("contour_intermed"@.len() == 16);
    assert("contour_index_intermed"@.len() == 22);
    assert("depression"@.len() == 10);
    assert("depression_index"@.len() == 16);
    assert("depression_intermed"@.len() == 19);
    assert("depression_index_intermed"@.len() == 25);
    assert("slope_line"@.len() == 10);
    assert("depression_index"@[0] == 'd' && "contour_intermed"@[0] == 'c');
    assert("contour_index"@[8] == 'i' && "depression"@[0] == 'd' && "slope_line"@[0] == 's');
    match c {
        Classification::Contour => {
            assert(l == "contour"@);
        },
        Classification::Depression => {
            assert(l == "depression"@);
        },
        Classification::ContourIndex => {
            assert(l == "contour_index"@);
        },
        Classification::DepressionIndex => {
            assert(l == "depression_index"@);
        },
        Classification::ContourIntermed => {
            assert(l == "contour_intermed"@);
            assert(l[0] != "depression_index"@[0]);
        },
        Classification::DepressionIntermed => {
            assert(l == "depression_intermed"@);
            assert(l[0] != "slope_line"@[0]);
        },
        Classification::ContourIndexIntermed => {
            assert(l == "contour_index_intermed"@);
        },
        _ => {
            assert(l == "depression_index_intermed"@);
        },
    }
}

/// ISOM 2017-2 symbol code for a layer name, where one exists.
pub fn layer_isom(layer: &str) -> (r: Option<&'static str>)
    ensures
        match r {
            Some(code) => isom_code_of_layer(layer@) == Some(code@),
            None => isom_code_of_layer(layer@) is None,
        },
{
    if str_eq(layer, "cont") || str_eq(layer, "contour") || str_eq(layer, "depression")
        || str_eq(layer, "slope_line") {
        Some("101")
    } else if str_eq(layer, "contour_index") || str_eq(layer, "depression_index") {
        Some("102")
    } else if str_eq(layer, "contour_intermed") || str_eq(layer, "contour_index_intermed")
        || str_eq(layer, "depression_intermed") || str_eq(layer, "depression_index_intermed")
        || str_eq(layer, "formline") || str_eq(layer, "formline_depression") {
        Some("103")
    } else if str_eq(layer, "dotknoll") || str_eq(layer, "uglydotknoll") {
        Some("109")
    } else if str_eq(layer, "udepression") || str_eq(layer, "uglyudepression") {
        Some("111")
    } else if str_eq(layer, "cliff2") {
        Some("202")
    } else if str_eq(layer, "cliff3") || str_eq(layer, "cliff4") {
        Some("201")
    } else {
        None
    }
}

/// The properties of a feature on `layer`: its layer name, and its ISOM code when known.
pub fn layer_props<'a>(layer: &'a str) -> (r: Vec<(&'a str, &'a str)>)
    ensures
        r@.len() == if isom_code_of_layer(layer@) is Some {
            2int
        } else {
            1int
        },
        r@[0].0@ == "layer"@,
        r@[0].1@ == layer@,
        isom_code_of_layer(layer@) is Some ==> r@[1].0@ == "isom"@ && Some(r@[1].1@)
            == isom_code_of_layer(layer@),
{
    let mut props: Vec<(&'a str, &'a str)> = vec![("layer", layer)];
    if let Some(isom) = layer_isom(layer) {
        props.push(("isom", isom));
    }
    props
}

/// The features of a collection separated by commas.
pub open spec fn comma_joined(features: Seq<Seq<char>>) -> Seq<char>
    decreases features.len(),
{
    if features.len() == 0 {
        Seq::empty()
    } else if features.len() == 1 {
        features[0]
    } else {
        comma_joined(features.drop_last()) + ","@ + features.last()
    }
}

/// The text of a FeatureCollection holding `features` (each already JSON text), with the
/// `crs` member when one is given.
pub open spec fn feature_collection(features: Seq<Seq<char>>, crs: Option<Seq<char>>) -> Seq<char> {
    "{\"type\":\"FeatureCollection\""@ + (match crs {
        Some(c) => ",\"crs\":"@ + c,
        None => Seq::empty(),
    }) + ",\"features\":["@ + comma_joined(features) + "]}"@
}

/// Frame a FeatureCollection around features given as JSON text. `crs` is included
/// verbatim when given.
pub fn feature_collection_text(features: &Vec<String>, crs: Option<&String>) -> (r: String)
    ensures
        r@ == feature_collection(
            features@.map_values(|f: String| f@),
            match crs {
                Some(c) => Some(c@),
                None => None,
            },
        ),
{
    let ghost fs = features@.map_values(|f: String| f@);
    let mut w = String::from_str("{\"type\":\"FeatureCollection\"");
    if let Some(c) = crs {
        w.append(",\"crs\":");
        w.append(c.as_str());
    }
    w.append(",\"features\":[");
    let ghost prefix = w@;
    let mut first = true;
    let mut i: usize = 0;
    while i < features.len()
        invariant
            i <= features@.len(),
            fs == features@.map_values(|f: String| f@),
            first == (i == 0),
            w@ == prefix + comma_joined(fs.take(i as int)),
        decreases features@.len() - i,
    {
        if !first {
            w.append(",");
        }
        first = false;
        w.append(features[i].as_str());
        proof {
            let t = fs.take(i + 1);
            assert(t.drop_last() =~= fs.take(i as int));
            assert(t.last() == features@[i as int]@);
            if i == 0 {
                assert(fs.take(0) =~= Seq::<Seq<char>>::empty());
            }
        }
        i = i + 1;
    }
    assert(fs.take(features@.len() as int) =~= fs);
    w.append("]}");
    w
}

} // verus!
