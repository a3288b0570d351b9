//! Command-line arguments that hold no floating-point option, and the
//! default model paths.
use vstd::prelude::*;

verus! {

/// The default text-line detection model.
pub const DEFAULT_DETECT_MODEL_PATH: &'static str = "models/deim-s-1024x1024.onnx";

/// The default recognition model for lines of up to 100 characters.
pub const DEFAULT_RECOGNIZE_MODEL_PATH: &'static str =
    "models/parseq-ndl-24x768-100-tiny-153epoch-tegaki3-r8data-202604.onnx";

/// The default recognition model for lines of up to 30 characters.
pub const DEFAULT_RECOGNIZE_MODEL30_PATH: &'static str =
    "models/parseq-ndl-24x256-30-tiny-189epoch-tegaki3-r8data-202604.onnx";

/// The default recognition model for lines of up to 50 characters.
pub const DEFAULT_RECOGNIZE_MODEL50_PATH: &'static str =
    "models/parseq-ndl-24x384-50-tiny-300epoch-tegaki3-r8data-202604.onnx";

/// The default character set of the recognition models.
pub const DEFAULT_CHARSET_PATH: &'static str = "ndlocr/src/config/NDLmoji.yaml";

/// Arguments of the `detect` command: load the detection model on an image.
pub struct DetectArgs {
    pub model: String,
    pub image: String,
}

/// Arguments of the `recognize` command: recognise one line image.
pub struct RecognizeArgs {
    pub model: String,
    pub image: String,
    pub charset: String,
}

/// Orientation forced on every line of a mock page.
#[derive(Clone, Copy, Debug, PartialEq, Eq, Structural)]
pub enum LineOrientation {
    Vertical,
    Horizontal,
}

impl LineOrientation {
    /// Whether lines of this orientation are vertical.
    pub fn is_vertical(&self) -> (r: bool)
        ensures
            r == (*self == LineOrientation::Vertical),
    {
        match self {
            LineOrientation::Vertical => true,
            LineOrientation::Horizontal => false,
        }
    }
}

} // verus!
