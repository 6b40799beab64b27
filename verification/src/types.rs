use vstd::prelude::*;

use crate::text::{hex_byte, push_hex_byte};

verus! {

/// Core error type for VectorIt operations.
///
/// Every variant but `Cancelled` carries a human-readable detail message.
#[derive(Debug, Clone)]
pub enum VectorItError {
    ImageDecode(String),
    QuantizationFailed(String),
    ExportFailed(String),
    Cancelled,
    Pipeline(String),
}

/// The text of an error, as shown to the user.
pub open spec fn error_text(e: VectorItError) -> Seq<char> {
    match e {
        VectorItError::ImageDecode(m) => "Failed to decode image: "@ + m@,
        VectorItError::QuantizationFailed(m) => "Quantization failed: "@ + m@,
        VectorItError::ExportFailed(m) => "Export failed: "@ + m@,
        VectorItError::Cancelled => "Pipeline cancelled"@,
        VectorItError::Pipeline(m) => "Pipeline error: "@ + m@,
    }
}

impl VectorItError {
    /// The text of the error, as shown to the user.
    pub fn message(&self) -> (s: String)
        ensures
            s@ == error_text(*self),
    {
        match self {
            VectorItError::ImageDecode(m) => {
                let mut s = String::from_str("Failed to decode image: ");
                s.append(m.as_str());
                s
            },
            VectorItError::QuantizationFailed(m) => {
                let mut s = String::from_str("Quantization failed: ");
                s.append(m.as_str());
                s
            },
            VectorItError::ExportFailed(m) => {
                let mut s = String::from_str("Export failed: ");
                s.append(m.as_str());
                s
            },
            VectorItError::Cancelled => String::from_str("Pipeline cancelled"),
            VectorItError::Pipeline(m) => {
                let mut s = String::from_str("Pipeline error: ");
                s.append(m.as_str());
                s
            },
        }
    }
}

/// An RGB color.
#[derive(Debug, Clone, Copy, PartialEq, Eq, Structural)]
pub struct RgbColor {
    pub r: u8,
    pub g: u8,
    pub b: u8,
}

impl RgbColor {
    /// The color as `#rrggbb`, in lowercase hexadecimal.
    pub fn to_hex(&self) -> (s: String)
        ensures
            s@ == "#"@ + hex_byte(self.r) + hex_byte(self.g) + hex_byte(self.b),
    {
        let mut s = String::from_str("#");
        push_hex_byte(&mut s, self.r);
        push_hex_byte(&mut s, self.g);
        push_hex_byte(&mut s, self.b);
        s
    }
}

/// Raw decoded image in RGBA format (row-major, `width * height` pixels).
#[derive(Debug, Clone)]
pub struct RawImage {
    pub width: u32,
    pub height: u32,
    pub pixels: Vec<[u8; 4]>,
    pub has_alpha: bool,
}

/// The per-pixel palette indices of a quantized image (row-major).
#[derive(Debug, Clone)]
pub struct LabelImage {
    pub width: u32,
    pub height: u32,
    pub labels: Vec<u16>,
}

/// A connected region of same-colored pixels.
#[derive(Debug, Clone, Copy, PartialEq, Eq, Structural)]
pub struct Region {
    pub id: u32,
    pub color_index: u16,
    pub pixel_count: u32,
}

/// Segmentation result: regions + per-pixel label map (row-major).
#[derive(Debug, Clone)]
pub struct Segmentation {
    pub regions: Vec<Region>,
    pub label_map: Vec<u32>,
    pub width: u32,
    pub height: u32,
}

/// The mathematical value of a segmentation.
#[verifier::ext_equal]
pub struct SegmentationView {
    pub regions: Seq<Region>,
    pub label_map: Seq<u32>,
    pub width: u32,
    pub height: u32,
}

impl View for Segmentation {
    type V = SegmentationView;

    open spec fn view(&self) -> SegmentationView {
        SegmentationView {
            regions: self.regions@,
            label_map: self.label_map@,
            width: self.width,
            height: self.height,
        }
    }
}

impl SegmentationView {
    /// The label map covers the whole `width x height` grid, and the grid is
    /// small enough for every pixel count to fit in a `u32`.
    pub open spec fn wf(self) -> bool {
        &&& self.label_map.len() == self.width * self.height
        &&& self.width * self.height <= u32::MAX
    }

    /// Some region carries the id `id`.
    pub open spec fn has_region(self, id: u32) -> bool {
        exists|k: int| 0 <= k < self.regions.len() && self.regions[k].id == id
    }
}

/// A point on the half-pixel lattice: the point `(x / 2, y / 2)` in pixel
/// coordinates, where pixel `(i, j)` covers the unit square with corner `(i, j)`.
#[derive(Debug, Clone, Copy, PartialEq, Eq, Structural)]
pub struct HalfPoint {
    pub x: i64,
    pub y: i64,
}

/// An end point of a split line, in half-pixel units like [`HalfPoint`].
#[derive(Debug, Clone, Copy, PartialEq, Eq, Structural)]
pub struct LinePoint {
    pub x: i64,
    pub y: i64,
}

/// A straight line through two points, used to split a region in two.
#[derive(Debug, Clone, Copy, PartialEq, Eq, Structural)]
pub struct SplitLine {
    pub start: LinePoint,
    pub end: LinePoint,
}

/// A traced boundary of a region.
#[derive(Debug, Clone)]
pub struct Boundary {
    pub region_id: u32,
    pub points: Vec<HalfPoint>,
    pub is_closed: bool,
}

/// Classification of image type for vectorization strategy selection.
#[derive(Debug, Clone, Copy, PartialEq, Eq, Structural)]
pub enum ImageType {
    Photo,
    AntiAliased,
    Aliased,
}

/// Quality level for vectorization presets.
#[derive(Debug, Clone, Copy, PartialEq, Eq, Structural)]
pub enum Quality {
    Low,
    Medium,
    High,
    Custom,
}

/// An edit operation on a segmentation.
#[derive(Debug, Clone)]
pub enum SegEdit {
    PaintPixels { pixels: Vec<(u32, u32)>, target_region: u32 },
    SplitRegion { region_id: u32, split_line: SplitLine },
    MergeRegions { source: u32, target: u32 },
}

/// How to handle transparency in the pipeline.
#[derive(Debug, Clone, Copy, PartialEq, Eq, Structural)]
pub enum TransparencyMode {
    Transparent,
    FlattenToColor(RgbColor),
}

impl Default for TransparencyMode {
    fn default() -> (m: Self)
        ensures
            m == TransparencyMode::Transparent,
    {
        TransparencyMode::Transparent
    }
}

/// Facts about a loaded image, with a PNG thumbnail in base64.
#[derive(Debug, Clone)]
pub struct ImageInfo {
    pub width: u32,
    pub height: u32,
    pub has_alpha: bool,
    pub file_size_bytes: u64,
    pub thumbnail_base64: String,
}

/// A pasted image saved to `path`, with its facts.
#[derive(Debug, Clone)]
pub struct PasteResult {
    pub path: String,
    pub info: ImageInfo,
}

/// The region under a pixel and a display color for it.
#[derive(Debug, Clone)]
pub struct SampleResult {
    pub region_id: u32,
    pub color_hex: String,
}

/// Pipeline progress information.
#[derive(Debug, Clone)]
pub struct PipelineProgress {
    pub stage: String,
    pub percent: u8,
}

/// DXF export mode.
#[derive(Debug, Clone, Copy, PartialEq, Eq, Structural)]
pub enum DxfMode {
    Spline,
    LineOnly(u16),
}

/// Export format selection.
#[derive(Debug, Clone, Copy, PartialEq, Eq, Structural)]
pub enum ExportFormat {
    Svg,
    Eps,
    Pdf,
    Dxf(DxfMode),
}

/// Bitmap export format.
#[derive(Debug, Clone, Copy, PartialEq, Eq, Structural)]
pub enum BitmapFormat {
    Png,
    Bmp,
    Jpg(u8),
}

} // verus!
