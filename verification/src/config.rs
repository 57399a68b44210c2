//! The settings of the parser.
use crate::float::F32;
use crate::types::clone_text;
use vstd::prelude::*;

verus! {

/// The format that a document is written in.
#[derive(Clone, Copy, Debug, PartialEq, Eq, Structural)]
pub enum OutputFormat {
    Json,
    Text,
    Markdown,
}

/// How raster images are surfaced in markdown output.
#[derive(Clone, Copy, Debug, PartialEq, Eq, Structural)]
pub enum ImageMode {
    Off,
    Placeholder,
    Embed,
}

/// The settings of the parser.
#[derive(Debug)]
pub struct LiteParseConfig {
    /// Language code passed to the OCR engine.
    pub ocr_language: String,
    /// Run OCR on text-sparse pages.
    pub ocr_enabled: bool,
    /// HTTP OCR server.
    pub ocr_server_url: Option<String>,
    /// Headers sent to the HTTP OCR server.
    pub ocr_server_headers: Vec<(String, String)>,
    /// Path to the tessdata directory.
    pub tessdata_path: Option<String>,
    /// Stop after this many pages.
    pub max_pages: usize,
    /// The pages to parse, such as `1-5,10,15-20`.
    pub target_pages: Option<String>,
    /// Rendering DPI.
    pub dpi: F32,
    pub output_format: OutputFormat,
    pub image_mode: ImageMode,
    /// Render hyperlink annotations as links in markdown output.
    pub extract_links: bool,
    /// Keep tiny text that is normally filtered.
    pub preserve_very_small_text: bool,
    /// Password for protected documents.
    pub password: Option<String>,
    /// Suppress progress logging.
    pub quiet: bool,
    /// Concurrent OCR workers.
    pub num_workers: usize,
    /// Run layout detection.
    pub layout_enabled: bool,
    pub layout_confidence_threshold: F32,
    pub layout_iou_threshold: F32,
    pub layout_image_size: u32,
}

/// What the settings are.
pub struct Settings {
    pub ocr_language: String,
    pub ocr_enabled: bool,
    pub ocr_server_url: Option<String>,
    pub ocr_server_headers: Seq<(String, String)>,
    pub tessdata_path: Option<String>,
    pub max_pages: usize,
    pub target_pages: Option<String>,
    pub dpi: F32,
    pub output_format: OutputFormat,
    pub image_mode: ImageMode,
    pub extract_links: bool,
    pub preserve_very_small_text: bool,
    pub password: Option<String>,
    pub quiet: bool,
    pub num_workers: usize,
    pub layout_enabled: bool,
    pub layout_confidence_threshold: F32,
    pub layout_iou_threshold: F32,
    pub layout_image_size: u32,
}

impl View for LiteParseConfig {
    type V = Settings;

    open spec fn view(&self) -> Settings {
        Settings {
            ocr_language: self.ocr_language,
            ocr_enabled: self.ocr_enabled,
            ocr_server_url: self.ocr_server_url,
            ocr_server_headers: self.ocr_server_headers@,
            tessdata_path: self.tessdata_path,
            max_pages: self.max_pages,
            target_pages: self.target_pages,
            dpi: self.dpi,
            output_format: self.output_format,
            image_mode: self.image_mode,
            extract_links: self.extract_links,
            preserve_very_small_text: self.preserve_very_small_text,
            password: self.password,
            quiet: self.quiet,
            num_workers: self.num_workers,
            layout_enabled: self.layout_enabled,
            layout_confidence_threshold: self.layout_confidence_threshold,
            layout_iou_threshold: self.layout_iou_threshold,
            layout_image_size: self.layout_image_size,
        }
    }
}

impl Default for LiteParseConfig {
    fn default() -> (r: Self)
        ensures
            r.ocr_language@ == "eng"@,
            r.ocr_enabled,
            r.ocr_server_url is None,
            r.ocr_server_headers@.len() == 0,
            r.tessdata_path is None,
            r.max_pages == 1000,
            r.target_pages is None,
            r.dpi == F32::from_nat(150),
            r.output_format == OutputFormat::Json,
            r.image_mode == ImageMode::Placeholder,
            r.extract_links,
            !r.preserve_very_small_text,
            r.password is None,
            !r.quiet,
            r.num_workers == 4,
            !r.layout_enabled,
            r.layout_confidence_threshold == F32::ratio(25, 100),
            r.layout_iou_threshold == F32::ratio(45, 100),
            r.layout_image_size == 1280,
    {
        LiteParseConfig {
            ocr_language: "eng".to_owned(),
            ocr_enabled: true,
            ocr_server_url: None,
            ocr_server_headers: Vec::new(),
            tessdata_path: None,
            max_pages: 1000,
            target_pages: None,
            dpi: F32::from_u32(150),
            output_format: OutputFormat::Json,
            image_mode: ImageMode::Placeholder,
            extract_links: true,
            preserve_very_small_text: false,
            password: None,
            quiet: false,
            num_workers: 4,
            layout_enabled: false,
            layout_confidence_threshold: F32::fraction(25, 100),
            layout_iou_threshold: F32::fraction(45, 100),
            layout_image_size: 1280,
        }
    }
}

impl Clone for LiteParseConfig {
    fn clone(&self) -> (r: Self)
        ensures
            r@ == self@,
    {
        let mut headers: Vec<(String, String)> = Vec::new();
        let mut i: usize = 0;
        while i < self.ocr_server_headers.len()
            invariant
                i <= self.ocr_server_headers@.len(),
                headers@ =~= self.ocr_server_headers@.take(i as int),
            decreases self.ocr_server_headers@.len() - i,
        {
            headers.push(
                (self.ocr_server_headers[i].0.clone(), self.ocr_server_headers[i].1.clone()),
            );
            i = i + 1;
        }
        assert(headers@ =~= self.ocr_server_headers@);
        LiteParseConfig {
            ocr_language: self.ocr_language.clone(),
            ocr_enabled: self.ocr_enabled,
            ocr_server_url: clone_text(&self.ocr_server_url),
            ocr_server_headers: headers,
            tessdata_path: clone_text(&self.tessdata_path),
            max_pages: self.max_pages,
            target_pages: clone_text(&self.target_pages),
            dpi: self.dpi,
            output_format: self.output_format,
            image_mode: self.image_mode,
            extract_links: self.extract_links,
            preserve_very_small_text: self.preserve_very_small_text,
            password: clone_text(&self.password),
            quiet: self.quiet,
            num_workers: self.num_workers,
            layout_enabled: self.layout_enabled,
            layout_confidence_threshold: self.layout_confidence_threshold,
            layout_iou_threshold: self.layout_iou_threshold,
            layout_image_size: self.layout_image_size,
        }
    }
}

} // verus!
