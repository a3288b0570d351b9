//! Integer parts of the page layout detector: its classes, the mapping of
//! model pixels back to the image, and the clamping of detected boxes.
use vstd::prelude::*;

verus! {

broadcast use vstd::seq_lib::group_seq_properties;

/// Sizes that relate the model input to the (square-padded) image.
pub struct ScaleContext {
    pub image_width: u32,
    pub image_height: u32,
    pub input_width: u32,
    pub input_height: u32,
}

/// The class names of the NDL layout model, in class-index order.
pub open spec fn ndl_classes() -> Seq<Seq<char>> {
    seq![
        "text_block"@,
        "line_main"@,
        "line_caption"@,
        "line_ad"@,
        "line_note"@,
        "line_note_tochu"@,
        "block_fig"@,
        "block_ad"@,
        "block_pillar"@,
        "block_folio"@,
        "block_rubi"@,
        "block_chart"@,
        "block_eqn"@,
        "block_cfm"@,
        "block_eng"@,
        "block_table"@,
        "line_title"@,
    ]
}

/// The class names of the NDL layout model (see [`ndl_classes`]).
pub fn default_ndl_classes() -> (res: Vec<String>)
    ensures
        res.deep_view() == ndl_classes(),
{
    let names: [&str; 17] = [
        "text_block",
        "line_main",
        "line_caption",
        "line_ad",
        "line_note",
        "line_note_tochu",
        "block_fig",
        "block_ad",
        "block_pillar",
        "block_folio",
        "block_rubi",
        "block_chart",
        "block_eqn",
        "block_cfm",
        "block_eng",
        "block_table",
        "line_title",
    ];
    let ghost cls = ndl_classes();
    let mut out: Vec<String> = Vec::new();
    let mut i: usize = 0;
    while i < 17
        invariant
            i <= 17,
            cls == ndl_classes(),
            forall|k: int| 0 <= k < 17 ==> (#[trigger] names@[k])@ == cls[k],
            out.deep_view() =~= cls.take(i as int),
        decreases 17 - i,
    {
        let name = names[i].to_owned();
        let ghost before = out.deep_view();
        out.push(name);
        proof {
            assert(out.deep_view() =~= before.push(cls[i as int]));
            assert(cls.take(i + 1) =~= cls.take(i as int).push(cls[i as int]));
        }
        i = i + 1;
    }
    proof {
        assert(cls.take(17) =~= cls);
    }
    out
}

/// The index of the class of a detection labelled `class_id` (labels count
/// from 1; 0 and below are background), when the model has that class.
pub open spec fn spec_class_index(class_id: i64, n_classes: nat) -> Option<usize> {
    if class_id > 0 && ((class_id - 1) as usize) < n_classes {
        Some((class_id - 1) as usize)
    } else {
        None
    }
}

/// The class index of a detection label (see [`spec_class_index`]).
pub fn detection_class_index(class_id: i64, n_classes: usize) -> (r: Option<usize>)
    ensures
        r == spec_class_index(class_id, n_classes as nat),
{
    if class_id <= 0 {
        return None;
    }
    let ci = (class_id - 1) as usize;
    if ci < n_classes {
        Some(ci)
    } else {
        None
    }
}

/// `v` clamped to `[lo, hi]`.
pub open spec fn clamp_i32(v: i32, lo: i32, hi: i32) -> i32 {
    if v < lo {
        lo
    } else if v > hi {
        hi
    } else {
        v
    }
}

/// A detected box clamped to an image of `width x height`; `None` when
/// nothing of it is left.
pub open spec fn spec_clamp_box(b: [i32; 4], width: usize, height: usize) -> Option<[i32; 4]> {
    let w = width as i32;
    let h = height as i32;
    let c = [clamp_i32(b[0], 0, w), clamp_i32(b[1], 0, h), clamp_i32(b[2], 0, w), clamp_i32(b[3], 0, h)];
    if c[2] > c[0] && c[3] > c[1] {
        Some(c)
    } else {
        None
    }
}

fn clamp_to(v: i32, lo: i32, hi: i32) -> (r: i32)
    requires
        lo <= hi,
    ensures
        r == clamp_i32(v, lo, hi),
{
    if v < lo {
        lo
    } else if v > hi {
        hi
    } else {
        v
    }
}

/// Clamps a detected box to the image and keeps it when it still has an
/// area (see [`spec_clamp_box`]). The sizes, taken as `i32`, must not be
/// negative.
pub fn clamp_box_to_image(b: [i32; 4], width: usize, height: usize) -> (r: Option<[i32; 4]>)
    requires
        width as i32 >= 0,
        height as i32 >= 0,
    ensures
        r == spec_clamp_box(b, width, height),
{
    let w = width as i32;
    let h = height as i32;
    let c: [i32; 4] = [clamp_to(b[0], 0, w), clamp_to(b[1], 0, h), clamp_to(b[2], 0, w), clamp_to(b[3], 0, h)];
    proof {
        assert(c =~= [clamp_i32(b[0], 0, w), clamp_i32(b[1], 0, h), clamp_i32(b[2], 0, w), clamp_i32(b[3], 0, h)]);
    }
    if c[2] > c[0] && c[3] > c[1] {
        Some(c)
    } else {
        None
    }
}

/// The image pixel that model pixel `(x, y)` samples: the image is padded
/// at the right and bottom to a square of side `max(width, height)` and
/// scaled to `input_width x input_height` by nearest neighbour; `None` in
/// the padding.
pub open spec fn spec_source_pixel(
    x: int,
    y: int,
    width: int,
    height: int,
    input_width: int,
    input_height: int,
) -> Option<(int, int)> {
    let side = if width > height {
        width
    } else {
        height
    };
    let sx = x * side / input_width;
    let sy = y * side / input_height;
    if sy < height && sx < width {
        Some((sx, sy))
    } else {
        None
    }
}

/// The image pixel that a model pixel samples (see [`spec_source_pixel`]).
pub fn source_pixel(
    x: usize,
    y: usize,
    width: usize,
    height: usize,
    input_width: usize,
    input_height: usize,
) -> (r: Option<(usize, usize)>)
    requires
        input_width > 0,
        input_height > 0,
        x * (if width > height {
            width
        } else {
            height
        }) <= usize::MAX,
        y * (if width > height {
            width
        } else {
            height
        }) <= usize::MAX,
    ensures
        match r {
            Some((sx, sy)) => spec_source_pixel(
                x as int,
                y as int,
                width as int,
                height as int,
                input_width as int,
                input_height as int,
            ) == Some((sx as int, sy as int)),
            None => spec_source_pixel(
                x as int,
                y as int,
                width as int,
                height as int,
                input_width as int,
                input_height as int,
            ) is None,
        },
{
    let side = if width > height {
        width
    } else {
        height
    };
    let sy = y * side / input_height;
    let sx = x * side / input_width;
    if sy < height && sx < width {
        Some((sx, sy))
    } else {
        None
    }
}

} // verus!
