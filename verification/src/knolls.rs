//! The classification of detected dot knolls.
use vstd::prelude::*;
use crate::geometry::{Classification, layer_name};
use crate::geojson::isom_code_of_layer;

verus! {

/// The point class of a dot knoll candidate: a knoll or a depression, drawn cleanly when no
/// contour passes near it and marked "ugly" otherwise.
pub open spec fn dotknoll_class_of(clear: bool, is_knoll: bool) -> Classification {
    if clear {
        if is_knoll {
            Classification::Dotknoll
        } else {
            Classification::Udepression
        }
    } else {
        if is_knoll {
            Classification::UglyDotknoll
        } else {
            Classification::UglyUdepression
        }
    }
}

/// Classify a dot knoll candidate by whether its surroundings are clear of contours and
/// whether it is a knoll or a depression.
pub fn dotknoll_class(clear: bool, is_knoll: bool) -> (r: Classification)
    ensures
        r == dotknoll_class_of(clear, is_knoll),
{
    match (clear, is_knoll) {
        (true, true) => Classification::Dotknoll,
        (true, false) => Classification::Udepression,
        (false, true) => Classification::UglyDotknoll,
        (false, false) => Classification::UglyUdepression,
    }
}

/// Whether the window of pixel columns `cols` and rows `rows` around a dot knoll lies
/// inside a `width` x `height` image and is clear of contour ink (no pixel is 0).
pub open spec fn window_clear_of(
    pixels: Seq<u8>,
    width: u32,
    height: u32,
    cols: Seq<u32>,
    rows: Seq<u32>,
) -> bool {
    forall|a: int|
        0 <= a < cols.len() ==> #[trigger] cols[a] < width && forall|b: int|
            0 <= b < rows.len() ==> #[trigger] rows[b] < height && pixels[rows[b] * width + cols[a]]
                != 0
}

/// Whether the window around a dot knoll is clear (see [`window_clear_of`]); the image is
/// stored row by row.
pub fn window_clear(pixels: &Vec<u8>, width: u32, height: u32, cols: &Vec<u32>, rows: &Vec<u32>) -> (r:
    bool)
    requires
        pixels@.len() == width * height,
    ensures
        r == window_clear_of(pixels@, width, height, cols@, rows@),
{
    let n = pixels.len();
    let mut a: usize = 0;
    while a < cols.len()
        invariant
            pixels@.len() == width * height,
            n == pixels@.len(),
            a <= cols@.len(),
            forall|q: int|
                0 <= q < a ==> #[trigger] cols@[q] < width && forall|b: int|
                    0 <= b < rows@.len() ==> #[trigger] rows@[b] < height && pixels@[rows@[b]
                        * width + cols@[q]] != 0,
        decreases cols@.len() - a,
    {
        let c = cols[a];
        if c >= width {
            proof {
                assert(!(cols@[a as int] < width));
            }
            return false;
        }
        let mut b: usize = 0;
        while b < rows.len()
            invariant
                pixels@.len() == width * height,
                n == pixels@.len(),
                c < width,
                a < cols@.len(),
                c == cols@[a as int],
                b <= rows@.len(),
                forall|q: int|
                    0 <= q < b ==> #[trigger] rows@[q] < height && pixels@[rows@[q] * width + c]
                        != 0,
            decreases rows@.len() - b,
        {
            let r = rows[b];
            if r >= height {
                proof {
                    assert(!(rows@[b as int] < height));
                    assert(cols@[a as int] == c);
                }
                return false;
            }
            proof {
                assert(r * width + c < width * height && r * width <= r * width + c) by (
                nonlinear_arith)
                    requires
                        r < height,
                        c < width,
                ;
            }
            if pixels[(r as usize) * (width as usize) + (c as usize)] == 0 {
                proof {
                    assert(rows@[b as int] == r && cols@[a as int] == c);
                    assert(pixels@[rows@[b as int] * width + cols@[a as int]] == 0);
                }
                return false;
            }
            b = b + 1;
        }
        a = a + 1;
    }
    true
}


/// A dot knoll is drawn as ISOM 109 and a depression as 111, clear or "ugly"; the four
/// outcomes are four different classes.
pub proof fn lemma_dotknoll_symbols(clear: bool, is_knoll: bool)
    ensures
        isom_code_of_layer(layer_name(dotknoll_class_of(clear, is_knoll))) == Some(
            if is_knoll {
                "109"@
            } else {
                "111"@
            },
        ),
        dotknoll_class_of(clear, is_knoll) != dotknoll_class_of(!clear, is_knoll),
        dotknoll_class_of(clear, is_knoll) != dotknoll_class_of(clear, !is_knoll),
        dotknoll_class_of(clear, is_knoll) != dotknoll_class_of(!clear, !is_knoll),
{
    reveal_strlit("cont");
    reveal_strlit("contour");
    reveal_strlit("depression");
    reveal_strlit("slope_line");
    reveal_strlit("contour_index");
    reveal_strlit("depression_index");
    reveal_strlit("contour_intermed");
    reveal_strlit("contour_index_intermed");
    reveal_strlit("depression_intermed");
    reveal_strlit("depression_index_intermed");
    reveal_strlit("formline");
    reveal_strlit("formline_depression");
    reveal_strlit("dotknoll");
    reveal_strlit("uglydotknoll");
    reveal_strlit("udepression");
    reveal_strlit("uglyudepression");
    reveal_strlit("109");
    reveal_strlit("111");
    {
        if clear == true && is_knoll == true {
            assert("dotknoll"@ != "cont"@) by {
                assert("dotknoll"@.len() != "cont"@.len());
            }
            assert("dotknoll"@ != "contour"@) by {
                assert("dotknoll"@.len() != "contour"@.len());
            }
            assert("dotknoll"@ != "depression"@) by {
                assert("dotknoll"@.len() != "depression"@.len());
            }
            assert("dotknoll"@ != "slope_line"@) by {
                assert("dotknoll"@.len() != "slope_line"@.len());
            }
            assert("dotknoll"@ != "contour_index"@) by {
                assert("dotknoll"@.len() != "contour_index"@.len());
            }
            assert("dotknoll"@ != "depression_index"@) by {
                assert("dotknoll"@.len() != "depression_index"@.len());
            }
            assert("dotknoll"@ != "contour_intermed"@) by {
                assert("dotknoll"@.len() != "contour_intermed"@.len());
            }
            assert("dotknoll"@ != "contour_index_intermed"@) by {
                assert("dotknoll"@.len() != "contour_index_intermed"@.len());
            }
            assert("dotknoll"@ != "depression_intermed"@) by {
                assert("dotknoll"@.len() != "depression_intermed"@.len());
            }
            assert("dotknoll"@ != "depression_index_intermed"@) by {
                assert("dotknoll"@.len() != "depression_index_intermed"@.len());
            }
            assert("dotknoll"@ != "formline"@) by {
                assert("dotknoll"@[0] != "formline"@[0]);
            }
            assert("dotknoll"@ != "formline_depression"@) by {
                assert("dotknoll"@.len() != "formline_depression"@.len());
            }
        }
        if clear == true && is_knoll == false {
            assert("udepression"@ != "cont"@) by {
                assert("udepression"@.len() != "cont"@.len());
            }
            assert("udepression"@ != "contour"@) by {
                assert("udepression"@.len() != "contour"@.len());
            }
            assert("udepression"@ != "depression"@) by {
                assert("udepression"@.len() != "depression"@.len());
            }
            assert("udepression"@ != "slope_line"@) by {
                assert("udepression"@.len() != "slope_line"@.len());
            }
            assert("udepression"@ != "contour_index"@) by {
                assert("udepression"@.len() != "contour_index"@.len());
            }
            assert("udepression"@ != "depression_index"@) by {
                assert("udepression"@.len() != "depression_index"@.len());
            }
            assert("udepression"@ != "contour_intermed"@) by {
                assert("udepression"@.len() != "contour_intermed"@.len());
            }
            assert("udepression"@ != "contour_index_intermed"@) by {
                assert("udepression"@.len() != "contour_index_intermed"@.len());
            }
            assert("udepression"@ != "depression_intermed"@) by {
                assert("udepression"@.len() != "depression_intermed"@.len());
            }
            assert("udepression"@ != "depression_index_intermed"@) by {
                assert("udepression"@.len() != "depression_index_intermed"@.len());
            }
            assert("udepression"@ != "formline"@) by {
                assert("udepression"@.len() != "formline"@.len());
            }
            assert("udepression"@ != "formline_depression"@) by {
                assert("udepression"@.len() != "formline_depression"@.len());
            }
            assert("udepression"@ != "dotknoll"@) by {
                assert("udepression"@.len() != "dotknoll"@.len());
            }
            assert("udepression"@ != "uglydotknoll"@) by {
                assert("udepression"@.len() != "uglydotknoll"@.len());
            }
        }
        if clear == false && is_knoll == true {
            assert("uglydotknoll"@ != "cont"@) by {
                assert("uglydotknoll"@.len() != "cont"@.len());
            }
            assert("uglydotknoll"@ != "contour"@) by {
                assert("uglydotknoll"@.len() != "contour"@.len());
            }
            assert("uglydotknoll"@ != "depression"@) by {
                assert("uglydotknoll"@.len() != "depression"@.len());
            }
            assert("uglydotknoll"@ != "slope_line"@) by {
                assert("uglydotknoll"@.len() != "slope_line"@.len());
            }
            assert("uglydotknoll"@ != "contour_index"@) by {
                assert("uglydotknoll"@.len() != "contour_index"@.len());
            }
            assert("uglydotknoll"@ != "depression_index"@) by {
                assert("uglydotknoll"@.len() != "depression_index"@.len());
            }
            assert("uglydotknoll"@ != "contour_intermed"@) by {
                assert("uglydotknoll"@.len() != "contour_intermed"@.len());
            }
            assert("uglydotknoll"@ != "contour_index_intermed"@) by {
                assert("uglydotknoll"@.len() != "contour_index_intermed"@.len());
            }
            assert("uglydotknoll"@ != "depression_intermed"@) by {
                assert("uglydotknoll"@.len() != "depression_intermed"@.len());
            }
            assert("uglydotknoll"@ != "depression_index_intermed"@) by {
                assert("uglydotknoll"@.len() != "depression_index_intermed"@.len());
            }
            assert("uglydotknoll"@ != "formline"@) by {
                assert("uglydotknoll"@.len() != "formline"@.len());
            }
            assert("uglydotknoll"@ != "formline_depression"@) by {
                assert("uglydotknoll"@.len() != "formline_depression"@.len());
            }
            assert("uglydotknoll"@ != "dotknoll"@) by {
                assert("uglydotknoll"@.len() != "dotknoll"@.len());
            }
        }
        if clear == false && is_knoll == false {
            assert("uglyudepression"@ != "cont"@) by {
                assert("uglyudepression"@.len() != "cont"@.len());
            }
            assert("uglyudepression"@ != "contour"@) by {
                assert("uglyudepression"@.len() != "contour"@.len());
            }
            assert("uglyudepression"@ != "depression"@) by {
                assert("uglyudepression"@.len() != "depression"@.len());
            }
            assert("uglyudepression"@ != "slope_line"@) by {
                assert("uglyudepression"@.len() != "slope_line"@.len());
            }
            assert("uglyudepression"@ != "contour_index"@) by {
                assert("uglyudepression"@.len() != "contour_index"@.len());
            }
            assert("uglyudepression"@ != "depression_index"@) by {
                assert("uglyudepression"@.len() != "depression_index"@.len());
            }
            assert("uglyudepression"@ != "contour_intermed"@) by {
                assert("uglyudepression"@.len() != "contour_intermed"@.len());
            }
            assert("uglyudepression"@ != "contour_index_intermed"@) by {
                assert("uglyudepression"@.len() != "contour_index_intermed"@.len());
            }
            assert("uglyudepression"@ != "depression_intermed"@) by {
                assert("uglyudepression"@.len() != "depression_intermed"@.len());
            }
            assert("uglyudepression"@ != "depression_index_intermed"@) by {
                assert("uglyudepression"@.len() != "depression_index_intermed"@.len());
            }
            assert("uglyudepression"@ != "formline"@) by {
                assert("uglyudepression"@.len() != "formline"@.len());
            }
            assert("uglyudepression"@ != "formline_depression"@) by {
                assert("uglyudepression"@.len() != "formline_depression"@.len());
            }
            assert("uglyudepression"@ != "dotknoll"@) by {
                assert("uglyudepression"@.len() != "dotknoll"@.len());
            }
            assert("uglyudepression"@ != "uglydotknoll"@) by {
                assert("uglyudepression"@.len() != "uglydotknoll"@.len());
            }
            assert("uglyudepression"@ != "udepression"@) by {
                assert("uglyudepression"@.len() != "udepression"@.len());
            }
        }
    }
}

} // verus!
