//! Application identity and file-format constants, export formats, canvas
//! memory estimates, and the small state records of the user interface.

use vstd::prelude::*;

verus! {

/// Reverse-domain qualifier for the platform data directory.
pub const APP_QUALIFIER: &'static str = "com";
/// Organization name for the platform data directory.
pub const APP_ORGANIZATION: &'static str = "Monbuticloud";
/// Application name for the platform data directory and window title.
pub const APP_NAME: &'static str = "SplatterIron";

/// File extension for native canvas files (zstd-compressed JSON).
pub const CANVAS_EXTENSION: &'static str = ".splattercanvas";
/// File-dialog filter name for `.splattercanvas` files.
pub const FILE_FILTER_NAME: &'static str = "SplatterCanvas";
/// Default save-file name used when no path has been set.
pub const DEFAULT_CANVAS_NAME: &'static str = "canvas.splattercanvas";

/// File extension for archive files (xz-compressed JSON).
pub const ARCHIVE_EXTENSION: &'static str = ".splatterarchive";
/// File-dialog filter name for `.splatterarchive` files.
pub const ARCHIVE_FILTER_NAME: &'static str = "SplatterArchive";
/// Default export name for archive files.
pub const DEFAULT_ARCHIVE_NAME: &'static str = "canvas.splatterarchive";

/// Milliseconds to sleep per frame while the window is unfocused.
pub const UNFOCUSED_SLEEP_MILLISECONDS: u64 = 50;

/// Threshold (in bytes) above which creating a new canvas asks for
/// confirmation.
pub const MEMORY_WARNING_THRESHOLD: u64 = 500_000_000;

/// Multiplier applied to the repaint delay while idle.
pub const REPAINT_DELAY_MULTIPLIER: u32 = 5;

/// Interval (minutes) between automatic saves of the current canvas.
pub const AUTOSAVE_INTERVAL_MINUTES: u64 = 2;

/// The bytes a canvas of `width` x `height` pixels with `layer_count`
/// layers needs at least: the output buffer, the blend buffer and each
/// layer, 4 bytes per pixel each.
pub open spec fn canvas_memory(width: u32, height: u32, layer_count: usize) -> int {
    width * height * 4 * (2 + layer_count)
}

/// Estimate the minimum memory footprint (bytes) of a canvas of the given
/// dimensions and layer count ([`canvas_memory`]).
pub fn estimate_canvas_memory(width: u32, height: u32, layer_count: usize) -> (bytes: u64)
    requires
        2 + layer_count <= u64::MAX,
        canvas_memory(width, height, layer_count) <= u64::MAX,
    ensures
        bytes == canvas_memory(width, height, layer_count),
{
    proof {
        assert(width * height <= 0xffff_ffff * 0xffff_ffff) by (nonlinear_arith)
            requires
                width <= 0xffff_ffff,
                height <= 0xffff_ffff,
        ;
    }
    let pixels = (width as u64) * (height as u64);
    proof {
        assert(0 <= pixels * 4 <= pixels * 4 * (2 + layer_count)) by (nonlinear_arith)
            requires
                pixels >= 0,
                layer_count >= 0,
        ;
        assert(pixels * 4 * (2 + layer_count) == canvas_memory(width, height, layer_count)) by (nonlinear_arith)
            requires
                pixels == width * height,
        ;
    }
    pixels * 4 * (2 + layer_count as u64)
}

/// A new canvas of this size needs confirmation: its memory estimate
/// exceeds [`MEMORY_WARNING_THRESHOLD`].
pub fn needs_memory_warning(width: u32, height: u32, layer_count: usize) -> (b: bool)
    requires
        2 + layer_count <= u64::MAX,
        canvas_memory(width, height, layer_count) <= u64::MAX,
    ensures
        b == (canvas_memory(width, height, layer_count) > MEMORY_WARNING_THRESHOLD),
{
    estimate_canvas_memory(width, height, layer_count) > MEMORY_WARNING_THRESHOLD
}

/// Preset canvas sizes shown in the "New Canvas" dialog.
pub const NEW_CANVAS_PRESETS: [(&'static str, u32, u32); 5] = [
    ("XS", 800, 600),
    ("S", 1280, 960),
    ("M", 2000, 1500),
    ("L", 2560, 1920),
    ("XL", 3200, 2400),
];

/// File extensions accepted by the image-import dialog.
pub const IMPORT_EXTENSIONS: [&'static str; 19] = [
    "avif",
    "png",
    "jpg",
    "jpeg",
    "webp",
    "gif",
    "tiff",
    "tif",
    "tga",
    "ico",
    "pnm",
    "pgm",
    "ppm",
    "pbm",
    "pam",
    "qoi",
    "exr",
    "hdr",
    "ff",
];

/// An image format the canvas can be exported to.
#[derive(Clone, Copy, Debug, PartialEq, Eq, Hash, Structural)]
pub enum ExportFormat {
    Avif,
    Png,
    Jpeg,
    WebP,
    Gif,
    Tiff,
    Tga,
    Ico,
    Pnm,
    Qoi,
    OpenExr,
    Hdr,
    Farbfeld,
}

/// File extension list and image format for an export target.
#[derive(Debug)]
pub struct ExportInformation {
    pub extensions: &'static [&'static str],
    pub fmt: ExportFormat,
}

/// The extensions offered for each export format.
pub const AVIF_EXTENSIONS: [&'static str; 1] = ["avif"];
pub const PNG_EXTENSIONS: [&'static str; 1] = ["png"];
pub const JPEG_EXTENSIONS: [&'static str; 2] = ["jpg", "jpeg"];
pub const WEBP_EXTENSIONS: [&'static str; 1] = ["webp"];
pub const GIF_EXTENSIONS: [&'static str; 1] = ["gif"];
pub const TIFF_EXTENSIONS: [&'static str; 2] = ["tiff", "tif"];
pub const TGA_EXTENSIONS: [&'static str; 1] = ["tga"];
pub const ICO_EXTENSIONS: [&'static str; 1] = ["ico"];
pub const PNM_EXTENSIONS: [&'static str; 5] = ["pnm", "pgm", "ppm", "pbm", "pam"];
pub const QOI_EXTENSIONS: [&'static str; 1] = ["qoi"];
pub const EXR_EXTENSIONS: [&'static str; 1] = ["exr"];
pub const HDR_EXTENSIONS: [&'static str; 1] = ["hdr"];
pub const FARBFELD_EXTENSIONS: [&'static str; 1] = ["ff"];

/// The extensions of the export format at index `i` of [`export_formats`].
pub open spec fn export_extensions(i: int) -> Seq<&'static str> {
    if i == 0 {
        AVIF_EXTENSIONS@
    } else if i == 1 {
        PNG_EXTENSIONS@
    } else if i == 2 {
        JPEG_EXTENSIONS@
    } else if i == 3 {
        WEBP_EXTENSIONS@
    } else if i == 4 {
        GIF_EXTENSIONS@
    } else if i == 5 {
        TIFF_EXTENSIONS@
    } else if i == 6 {
        TGA_EXTENSIONS@
    } else if i == 7 {
        ICO_EXTENSIONS@
    } else if i == 8 {
        PNM_EXTENSIONS@
    } else if i == 9 {
        QOI_EXTENSIONS@
    } else if i == 10 {
        EXR_EXTENSIONS@
    } else if i == 11 {
        HDR_EXTENSIONS@
    } else {
        FARBFELD_EXTENSIONS@
    }
}

/// The largest texture side assumed when no GPU backend reports one (the
/// WebGPU minimum).
pub const FALLBACK_MAX_TEXTURE_DIMENSION: u32 = 8192;

/// The largest canvas side the new-canvas dialog offers: what the GPU
/// reports, or [`FALLBACK_MAX_TEXTURE_DIMENSION`] without a GPU backend.
pub fn max_texture_dimension(reported: Option<u32>) -> (d: u32)
    ensures
        d == match reported {
            Some(v) => v,
            None => FALLBACK_MAX_TEXTURE_DIMENSION,
        },
{
    match reported {
        Some(v) => v,
        None => FALLBACK_MAX_TEXTURE_DIMENSION,
    }
}

/// The menu label of the export format at index `i` of [`export_formats`].
pub open spec fn export_label(i: int) -> Seq<char> {
    if i == 0 {
        "AVIF"@
    } else if i == 1 {
        "PNG"@
    } else if i == 2 {
        "JPEG"@
    } else if i == 3 {
        "WebP"@
    } else if i == 4 {
        "GIF"@
    } else if i == 5 {
        "TIFF"@
    } else if i == 6 {
        "TGA"@
    } else if i == 7 {
        "ICO"@
    } else if i == 8 {
        "PNM"@
    } else if i == 9 {
        "QOI"@
    } else if i == 10 {
        "EXR"@
    } else if i == 11 {
        "HDR"@
    } else {
        "Farbfeld"@
    }
}

/// The supported export formats, in menu order, with their labels and
/// extensions.
pub fn export_formats() -> (v: Vec<(&'static str, ExportInformation)>)
    ensures
        v@.len() == 13,
        v@[0].1.fmt == ExportFormat::Avif,
        v@[1].1.fmt == ExportFormat::Png,
        v@[2].1.fmt == ExportFormat::Jpeg,
        v@[3].1.fmt == ExportFormat::WebP,
        v@[4].1.fmt == ExportFormat::Gif,
        v@[5].1.fmt == ExportFormat::Tiff,
        v@[6].1.fmt == ExportFormat::Tga,
        v@[7].1.fmt == ExportFormat::Ico,
        v@[8].1.fmt == ExportFormat::Pnm,
        v@[9].1.fmt == ExportFormat::Qoi,
        v@[10].1.fmt == ExportFormat::OpenExr,
        v@[11].1.fmt == ExportFormat::Hdr,
        v@[12].1.fmt == ExportFormat::Farbfeld,
        forall|i: int| 0 <= i < 13 ==> (#[trigger] v@[i]).1.extensions@ == export_extensions(i),
        forall|i: int| 0 <= i < 13 ==> (#[trigger] v@[i]).1.extensions@.len() >= 1,
        forall|i: int| 0 <= i < 13 ==> (#[trigger] v@[i]).0@ == export_label(i),
{
    let mut v: Vec<(&'static str, ExportInformation)> = Vec::new();
    v.push(("AVIF", ExportInformation { extensions: &AVIF_EXTENSIONS, fmt: ExportFormat::Avif }));
    v.push(("PNG", ExportInformation { extensions: &PNG_EXTENSIONS, fmt: ExportFormat::Png }));
    v.push(("JPEG", ExportInformation { extensions: &JPEG_EXTENSIONS, fmt: ExportFormat::Jpeg }));
    v.push(("WebP", ExportInformation { extensions: &WEBP_EXTENSIONS, fmt: ExportFormat::WebP }));
    v.push(("GIF", ExportInformation { extensions: &GIF_EXTENSIONS, fmt: ExportFormat::Gif }));
    v.push(("TIFF", ExportInformation { extensions: &TIFF_EXTENSIONS, fmt: ExportFormat::Tiff }));
    v.push(("TGA", ExportInformation { extensions: &TGA_EXTENSIONS, fmt: ExportFormat::Tga }));
    v.push(("ICO", ExportInformation { extensions: &ICO_EXTENSIONS, fmt: ExportFormat::Ico }));
    v.push(("PNM", ExportInformation { extensions: &PNM_EXTENSIONS, fmt: ExportFormat::Pnm }));
    v.push(("QOI", ExportInformation { extensions: &QOI_EXTENSIONS, fmt: ExportFormat::Qoi }));
    v.push(("EXR", ExportInformation { extensions: &EXR_EXTENSIONS, fmt: ExportFormat::OpenExr }));
    v.push(("HDR", ExportInformation { extensions: &HDR_EXTENSIONS, fmt: ExportFormat::Hdr }));
    v.push(("Farbfeld", ExportInformation { extensions: &FARBFELD_EXTENSIONS, fmt: ExportFormat::Farbfeld }));
    v
}

/// Error messages displayed in the error overlay.
#[derive(Debug)]
pub struct ErrorState {
    pub list: Vec<String>,
}

impl Default for ErrorState {
    /// Empty error list: no active errors.
    fn default() -> (s: ErrorState)
        ensures
            s.list@.len() == 0,
    {
        ErrorState { list: Vec::new() }
    }
}

/// Progress state for long-running operations.
#[derive(Clone, Copy, Debug, PartialEq, Eq, Structural)]
pub enum ProgressState {
    /// No operation in progress.
    Idle,
    /// Saving the canvas to disk.
    Saving,
    /// Periodic autosave in progress.
    Autosaving,
    /// Exporting an image file.
    Exporting,
    /// Loading a `.splattercanvas` file.
    Loading,
    /// Importing an image file as a new canvas.
    Importing,
}

/// The progress shown for the background work running: a load first, then
/// an import, then an export; idle when none runs.
pub fn progress_for(load_in_flight: bool, import_in_flight: bool, export_in_flight: bool) -> (p: ProgressState)
    ensures
        p == if load_in_flight {
            ProgressState::Loading
        } else if import_in_flight {
            ProgressState::Importing
        } else if export_in_flight {
            ProgressState::Exporting
        } else {
            ProgressState::Idle
        },
{
    if load_in_flight {
        ProgressState::Loading
    } else if import_in_flight {
        ProgressState::Importing
    } else if export_in_flight {
        ProgressState::Exporting
    } else {
        ProgressState::Idle
    }
}

/// Nanoseconds in [`AUTOSAVE_INTERVAL_MINUTES`].
pub const AUTOSAVE_INTERVAL_NANOS: u128 = 120_000_000_000;

/// Whether the autosave interval has passed since the last autosave:
/// `elapsed - last` (saturating) is at least [`AUTOSAVE_INTERVAL_MINUTES`],
/// times in nanoseconds since start.
pub fn interval_passed(elapsed_nanos: u128, last_nanos: u128) -> (b: bool)
    ensures
        b == (elapsed_nanos >= last_nanos && elapsed_nanos - last_nanos >= AUTOSAVE_INTERVAL_NANOS),
{
    elapsed_nanos >= last_nanos && elapsed_nanos - last_nanos >= AUTOSAVE_INTERVAL_NANOS
}

/// The autosave interval has passed between `last` and `elapsed`
/// (nanoseconds since start; a `last` after `elapsed` counts as no time).
pub open spec fn interval_has_passed(elapsed_nanos: u128, last_nanos: u128) -> bool {
    elapsed_nanos >= last_nanos && elapsed_nanos - last_nanos >= AUTOSAVE_INTERVAL_NANOS
}

/// An autosave is due: the document changed since the last autosave and
/// the interval has passed.
pub open spec fn autosave_is_due(dirty: bool, elapsed_nanos: u128, last_nanos: u128) -> bool {
    dirty && interval_has_passed(elapsed_nanos, last_nanos)
}

/// Whether an autosave is due ([`autosave_is_due`]).
pub fn autosave_due(dirty: bool, elapsed_nanos: u128, last_nanos: u128) -> (b: bool)
    ensures
        b == autosave_is_due(dirty, elapsed_nanos, last_nanos),
{
    dirty && interval_passed(elapsed_nanos, last_nanos)
}

/// The autosave schedule of a session, in nanoseconds since start: the
/// time elapsed, the time of the last autosave, and how many autosaves
/// were started.
#[derive(Clone, Copy, Debug, PartialEq, Eq, Structural)]
pub struct AutosaveClock {
    pub time_elapsed_nanos: u128,
    pub last_autosave_nanos: u128,
    pub times_autosaved: u32,
}

/// The clock after an autosave is started at the current time.
pub open spec fn after_autosave(c: AutosaveClock) -> AutosaveClock {
    AutosaveClock {
        time_elapsed_nanos: c.time_elapsed_nanos,
        last_autosave_nanos: c.time_elapsed_nanos,
        times_autosaved: (c.times_autosaved + 1) as u32,
    }
}

impl AutosaveClock {
    /// A session that has just started: no time elapsed, no autosave.
    pub fn new() -> (c: AutosaveClock)
        ensures
            c == (AutosaveClock { time_elapsed_nanos: 0, last_autosave_nanos: 0, times_autosaved: 0 }),
    {
        AutosaveClock { time_elapsed_nanos: 0, last_autosave_nanos: 0, times_autosaved: 0 }
    }

    /// Decide on an autosave.  When one is due ([`autosave_is_due`]) it is
    /// recorded ([`after_autosave`]) and the answer is `true`: the caller
    /// then starts the save.  Otherwise nothing changes.
    pub fn handle_autosave(&mut self, dirty: bool) -> (save: bool)
        requires
            old(self).times_autosaved < u32::MAX,
        ensures
            save == autosave_is_due(dirty, old(self).time_elapsed_nanos, old(self).last_autosave_nanos),
            save ==> *final(self) == after_autosave(*old(self)),
            !save ==> *final(self) == *old(self),
    {
        if autosave_due(dirty, self.time_elapsed_nanos, self.last_autosave_nanos) {
            self.last_autosave_nanos = self.time_elapsed_nanos;
            self.times_autosaved = self.times_autosaved + 1;
            true
        } else {
            false
        }
    }

    /// Whether the tool configuration is written now: it goes on the
    /// autosave cadence, once the interval has passed since the last
    /// autosave ([`interval_has_passed`]).
    pub fn handle_config_save(&self) -> (save: bool)
        ensures
            save == interval_has_passed(self.time_elapsed_nanos, self.last_autosave_nanos),
    {
        interval_passed(self.time_elapsed_nanos, self.last_autosave_nanos)
    }
}

/// Autosaves are spaced by the interval: once an autosave has started at
/// some time, none is due again at a later time `t` of the same clock
/// until the interval has passed since that start, whatever the document.
pub proof fn law_autosaves_spaced(c: AutosaveClock, dirty: bool, later_dirty: bool, t: u128)
    requires
        autosave_is_due(dirty, c.time_elapsed_nanos, c.last_autosave_nanos),
        c.times_autosaved < u32::MAX,
        t >= c.time_elapsed_nanos,
        autosave_is_due(later_dirty, t, after_autosave(c).last_autosave_nanos),
    ensures
        t - c.time_elapsed_nanos >= AUTOSAVE_INTERVAL_NANOS,
        after_autosave(c).times_autosaved == c.times_autosaved + 1,
{
}

/// The number of recent files remembered.
pub const MAX_RECENT_FILES: usize = 10;

/// The texts of a list of strings.
pub open spec fn string_views(v: Seq<String>) -> Seq<Seq<char>> {
    v.map_values(|s: String| s@)
}

/// The recent-files list after opening `path`: `path` first, then the
/// others in their order without `path`, at most [`MAX_RECENT_FILES`] in
/// all.
pub open spec fn recent_after(recent: Seq<Seq<char>>, path: Seq<char>) -> Seq<Seq<char>> {
    let all = seq![path] + recent.filter(|p: Seq<char>| p != path);
    if all.len() > MAX_RECENT_FILES {
        all.take(MAX_RECENT_FILES as int)
    } else {
        all
    }
}

/// Record `path` as the most recently opened file ([`recent_after`]); an
/// empty path changes nothing.
pub fn push_recent_file(recent_files: &mut Vec<String>, path: String)
    ensures
        path@.len() == 0 ==> final(recent_files)@ == old(recent_files)@,
        path@.len() > 0 ==> string_views(final(recent_files)@) == recent_after(string_views(old(recent_files)@), path@),
{
    if path.as_str().is_empty() {
        return;
    }
    let ghost old_views = string_views(recent_files@);
    let ghost pred = |p: Seq<char>| p != path@;
    let mut result: Vec<String> = Vec::new();
    result.push(path.clone());
    let mut i: usize = 0;
    proof {
        assert(old_views.take(0) =~= Seq::<Seq<char>>::empty());
        reveal(Seq::filter);
        assert(Seq::<Seq<char>>::empty().filter(pred) =~= Seq::<Seq<char>>::empty());
        assert(string_views(result@) =~= seq![path@] + old_views.take(0).filter(pred));
    }
    while i < recent_files.len()
        invariant
            i <= recent_files@.len(),
            old_views == string_views(recent_files@),
            pred == (|p: Seq<char>| p != path@),
            string_views(result@) == seq![path@] + old_views.take(i as int).filter(pred),
        decreases recent_files@.len() - i,
    {
        let ghost before = result@;
        proof {
            assert(old_views.take(i + 1) =~= old_views.take(i as int).push(old_views[i as int]));
            old_views.take(i as int).lemma_filter_push(old_views[i as int], pred);
        }
        if recent_files[i] != path {
            result.push(recent_files[i].clone());
            proof {
                assert(string_views(result@) =~= string_views(before).push(recent_files@[i as int]@));
            }
        }
        i = i + 1;
    }
    proof {
        assert(old_views.take(old_views.len() as int) =~= old_views);
    }
    let ghost full = result@;
    result.truncate(MAX_RECENT_FILES);
    proof {
        if full.len() > MAX_RECENT_FILES {
            assert(string_views(result@) =~= string_views(full).take(MAX_RECENT_FILES as int));
        }
    }
    *recent_files = result;
}

/// `std::time::Instant`, carried opaquely.
#[verifier::external_type_specification]
#[verifier::external_body]
pub struct ExInstant(std::time::Instant);

/// `std::path::PathBuf`, carried opaquely.
#[verifier::external_type_specification]
#[verifier::external_body]
pub struct ExPathBuf(std::path::PathBuf);

/// Transient toast notification.
#[derive(Debug)]
pub struct ToastState {
    /// The message text and the instant it was triggered.
    pub message: Option<(String, std::time::Instant)>,
}

impl Default for ToastState {
    /// No active toast notification.
    fn default() -> (s: ToastState)
        ensures
            s.message is None,
    {
        ToastState { message: None }
    }
}

/// A destructive file action postponed because the canvas has unsaved
/// changes, kept until the unsaved-changes warning is resolved.
#[derive(Debug)]
pub enum UnsavedWarningAction {
    /// Close the application.
    Quit,
    /// Open the new-canvas dialog.
    NewCanvas,
    /// Load a `.splattercanvas` file (opens a file dialog).
    Load,
    /// Import an image as a new canvas (opens a file dialog).
    Import,
    /// Load a specific recent `.splattercanvas` file by path.
    LoadPath(std::path::PathBuf),
}

} // verus!
