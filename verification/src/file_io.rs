//! File-operation bookkeeping: how save, load and dialog results coming
//! back from background work change the document and the pending state.

use vstd::prelude::*;

use crate::app_state::ARCHIVE_EXTENSION;
use crate::app_state::CANVAS_EXTENSION;
use crate::app_state::export_extensions;
use crate::app_state::export_formats;
use crate::canvas::Canvas;
use crate::canvas::DirtyRectList;
use crate::canvas::Layer;
use crate::document::Document;
use crate::document::SaveState;
use crate::undo_history::UndoHistory;
use crate::pixel::Color32;
use crate::tools::brush_parsers::BrushTip;

verus! {

/// `std::sync::mpsc::Sender`, carried opaquely.
#[verifier::external_type_specification]
#[verifier::external_body]
#[verifier::reject_recursive_types(T)]
pub struct ExSender<T>(std::sync::mpsc::Sender<T>);

/// `std::sync::mpsc::Receiver`, carried opaquely.
#[verifier::external_type_specification]
#[verifier::external_body]
#[verifier::reject_recursive_types(T)]
pub struct ExReceiver<T>(std::sync::mpsc::Receiver<T>);

/// Name of the autosave subdirectory of the data directory.
pub const AUTOSAVE_DIRECTORY: &'static str = "autosaves";
/// `chrono` format of autosave file names.
pub const AUTOSAVE_DATE_FORMAT: &'static str = "%Y-%m-%d_%H-%M-%S";

/// Distinguishes an autosave from a manual save.
#[derive(Debug)]
pub enum SaveKind {
    /// Periodic autosave to `{data_dir}/autosaves/`.
    Autosave,
    /// Explicit user-initiated save to a chosen path.
    ManualSave(std::path::PathBuf),
}

/// Result of a background save.
#[derive(Debug)]
pub enum SaveResult {
    /// Autosave completed successfully.
    Autosave,
    /// Manual save completed to the given path.
    ManualSave(std::path::PathBuf),
    /// Archive autosave completed successfully.
    ArchiveAutosave,
    /// Save failed with an error message.
    Failed(String),
}

/// What `std::path::Path::join` gives for `base` and `part`: `part`
/// appended to `base` by the platform's separator rules, a function of
/// the two alone.
pub uninterp spec fn joined_path(base: std::path::PathBuf, part: Seq<char>) -> std::path::PathBuf;

/// `std::path::Path::join`: the result is named [`joined_path`].
#[verifier::external_body]
fn join_path(base: &std::path::PathBuf, part: &str) -> (p: std::path::PathBuf)
    ensures
        p == joined_path(*base, part@),
{
    base.join(part)
}

/// What `std::path::Path::display` rendered to a `String` gives for a
/// path: its text on the target, a function of the path alone.
pub uninterp spec fn path_display(path: std::path::PathBuf) -> Seq<char>;

/// `std::path::Path::display` rendered to a `String`: the text is named
/// [`path_display`].
#[verifier::external_body]
fn path_text(path: &std::path::PathBuf) -> (s: String)
    ensures
        s@ == path_display(*path),
{
    path.display().to_string()
}

/// Tracks background saves: the result channel, the data directory that
/// holds autosaves, and whether the save in flight is an autosave.
pub struct SaveManager {
    /// Channel sender for save results from background work.
    pub save_result_sender: std::sync::mpsc::Sender<SaveResult>,
    /// Channel receiver for save results.
    pub save_result_receiver: std::sync::mpsc::Receiver<SaveResult>,
    /// Base path under which the `autosaves/` subdirectory lies.
    pub app_local_data_directory: std::path::PathBuf,
    /// `true` when the most recently started save is an autosave.
    pub autosave_in_flight: bool,
    /// `true` while an archive autosave runs.
    pub archive_autosave_in_flight: bool,
}

/// The document after a save result: a finished archive autosave leaves
/// it as it is; otherwise the dirty flag is cleared on success and the
/// save state is back to idle.
pub open spec fn saved_document(before: Document, after: Document, result: SaveResult) -> bool {
    &&& result is ArchiveAutosave ==> after == before
    &&& !(result is ArchiveAutosave) ==> after.save_state == SaveState::Idle
    &&& after.current_layer == before.current_layer
    &&& after.dirty_since_last_autosave == ((result is Failed || result is ArchiveAutosave)
        && before.dirty_since_last_autosave)
    &&& result is ManualSave ==> after.canvas.dirty_rect@.len() == 0
    &&& !(result is ManualSave) ==> after.canvas == before.canvas && after.savefile_path == before.savefile_path
    &&& result matches SaveResult::ManualSave(p) ==> after.savefile_path@ == path_display(p)
    &&& after.canvas.layers() == before.canvas.layers()
    &&& after.canvas.width == before.canvas.width
    &&& after.canvas.height == before.canvas.height
}

impl SaveManager {
    /// Create a save manager with no save in flight.
    pub fn new(
        save_result_sender: std::sync::mpsc::Sender<SaveResult>,
        save_result_receiver: std::sync::mpsc::Receiver<SaveResult>,
        app_local_data_directory: std::path::PathBuf,
    ) -> (m: SaveManager)
        ensures
            m.save_result_sender == save_result_sender,
            m.save_result_receiver == save_result_receiver,
            m.app_local_data_directory == app_local_data_directory,
            !m.autosave_in_flight,
            !m.archive_autosave_in_flight,
    {
        SaveManager {
            save_result_sender,
            save_result_receiver,
            app_local_data_directory,
            autosave_in_flight: false,
            archive_autosave_in_flight: false,
        }
    }

    /// Record that an archive autosave has started.
    pub fn begin_archive_autosave(&mut self)
        ensures
            final(self).archive_autosave_in_flight,
            final(self).autosave_in_flight == old(self).autosave_in_flight,
            final(self).app_local_data_directory == old(self).app_local_data_directory,
    {
        self.archive_autosave_in_flight = true;
    }

    /// The autosave directory: the data directory joined with
    /// [`AUTOSAVE_DIRECTORY`].
    pub fn autosave_directory(&self) -> (d: std::path::PathBuf)
        ensures
            d == joined_path(self.app_local_data_directory, AUTOSAVE_DIRECTORY@),
    {
        join_path(&self.app_local_data_directory, AUTOSAVE_DIRECTORY)
    }

    /// Record that a save of `kind` has started: whether it is an autosave,
    /// and that the document's save is in flight.
    pub fn begin_save(&mut self, document: &mut Document, kind: &SaveKind)
        ensures
            final(self).autosave_in_flight == (*kind is Autosave),
            final(self).archive_autosave_in_flight == old(self).archive_autosave_in_flight,
            final(self).app_local_data_directory == old(self).app_local_data_directory,
            final(document).save_state == SaveState::InFlight,
            final(document).canvas == old(document).canvas,
            final(document).savefile_path == old(document).savefile_path,
            final(document).current_layer == old(document).current_layer,
            final(document).dirty_since_last_autosave == old(document).dirty_since_last_autosave,
    {
        self.autosave_in_flight = match kind {
            SaveKind::Autosave => true,
            SaveKind::ManualSave(_) => false,
        };
        document.save_state = SaveState::InFlight;
    }

    /// Apply one finished save: an autosave clears the dirty flag; a manual
    /// save records the path as the document's save path, clears the dirty
    /// flag and asks for a full re-blend; a failure adds "Save failed: "
    /// and its message to `error_list`.  A finished archive autosave only
    /// ends the archive autosave; a failure, which may come from either,
    /// ends both; any other result ends the regular save.
    pub fn apply_save_result(&mut self, document: &mut Document, error_list: &mut Vec<String>, result: SaveResult)
        ensures
            final(self).autosave_in_flight == (result is ArchiveAutosave && old(self).autosave_in_flight),
            final(self).archive_autosave_in_flight == ((result is Autosave || result is ManualSave)
                && old(self).archive_autosave_in_flight),
            final(self).app_local_data_directory == old(self).app_local_data_directory,
            saved_document(*old(document), *final(document), result),
            match result {
                SaveResult::Failed(message) => {
                    &&& final(error_list)@.len() == old(error_list)@.len() + 1
                    &&& final(error_list)@.drop_last() == old(error_list)@
                    &&& final(error_list)@.last()@ == "Save failed: "@ + message@
                },
                _ => final(error_list)@ == old(error_list)@,
            },
    {
        let ghost before = *document;
        let ghost r = result;
        match result {
            SaveResult::Autosave => {
                document.dirty_since_last_autosave = false;
            },
            SaveResult::ManualSave(path) => {
                document.savefile_path = path_text(&path);
                document.dirty_since_last_autosave = false;
                document.canvas_mut().dirty_rect.request_full_blend();
            },
            SaveResult::ArchiveAutosave => {
                self.archive_autosave_in_flight = false;
                return;
            },
            SaveResult::Failed(message) => {
                let mut text = String::from_str("Save failed: ");
                text.append(message.as_str());
                error_list.push(text);
                self.archive_autosave_in_flight = false;
            },
        }
        document.save_state = SaveState::Idle;
        self.autosave_in_flight = false;
    }
}

/// The path a manual save of `document` goes to: its save path, or none
/// when it has never been saved.
pub fn current_save_target(document: &Document) -> (p: Option<String>)
    ensures
        document.savefile_path@.len() == 0 <==> p is None,
        p matches Some(s) ==> s@ == document.savefile_path@,
{
    if document.savefile_path.unicode_len() == 0 {
        None
    } else {
        Some(document.savefile_path.clone())
    }
}

/// `suf` is a suffix of `s`.
pub open spec fn has_suffix(s: Seq<char>, suf: Seq<char>) -> bool {
    suf.len() <= s.len() && s.subrange(s.len() - suf.len(), s.len() as int) == suf
}

/// Whether `s` ends with `suffix`.
pub fn ends_with(s: &str, suffix: &str) -> (b: bool)
    ensures
        b == has_suffix(s@, suffix@),
{
    let n = s.unicode_len();
    let m = suffix.unicode_len();
    if m > n {
        return false;
    }
    let mut i: usize = 0;
    while i < m
        invariant
            m <= n,
            n == s@.len(),
            m == suffix@.len(),
            i <= m,
            forall|k: int| 0 <= k < i ==> s@[n - m + k] == suffix@[k],
        decreases m - i,
    {
        if s.get_char(n - m + i) != suffix.get_char(i) {
            proof {
                assert(s@.subrange(n - m, n as int)[i as int] == s@[n - m + i]);
            }
            return false;
        }
        i = i + 1;
    }
    assert(s@.subrange(n - m, n as int) =~= suffix@);
    true
}

/// `path` with `extension` appended unless it already ends with it.
pub open spec fn with_extension(path: Seq<char>, extension: Seq<char>) -> Seq<char> {
    if has_suffix(path, extension) {
        path
    } else {
        path + extension
    }
}

/// An export path: `path` itself when it ends with one of `extensions`,
/// otherwise `path`, a dot and the first extension.
pub open spec fn export_path(path: Seq<char>, extensions: Seq<&'static str>) -> Seq<char> {
    if exists|j: int| 0 <= j < extensions.len() && has_suffix(path, (#[trigger] extensions[j])@) {
        path
    } else {
        path + "."@ + extensions[0]@
    }
}

/// `path` completed with the canvas or archive extension.
fn complete_with(path: String, extension: &str) -> (s: String)
    ensures
        s@ == with_extension(path@, extension@),
{
    if ends_with(path.as_str(), extension) {
        path
    } else {
        let mut s = path;
        s.append(extension);
        s
    }
}

/// `path` completed for export (see [`export_path`]).
fn complete_export(path: String, extensions: &'static [&'static str]) -> (s: String)
    requires
        extensions@.len() >= 1,
    ensures
        s@ == export_path(path@, extensions@),
{
    let n = extensions.len();
    let mut j: usize = 0;
    while j < n
        invariant
            n == extensions@.len(),
            j <= n,
            forall|k: int| 0 <= k < j ==> !has_suffix(path@, (#[trigger] extensions@[k])@),
        decreases n - j,
    {
        if ends_with(path.as_str(), extensions[j]) {
            return path;
        }
        j = j + 1;
    }
    let mut s = path;
    s.append(".");
    s.append(extensions[0]);
    proof {
        reveal_strlit(".");
    }
    s
}

/// A file action waiting for the user to pick a path.
#[derive(Clone, Copy, Debug, PartialEq, Eq, Structural)]
pub enum PendingFileAction {
    /// Load a `.splattercanvas` file.
    Load,
    /// Save the current canvas.
    Save,
    /// Import an image as a new canvas.
    Import,
    /// Export to the format at this index of [`export_formats`].
    Export(usize),
    /// Load an image as a stamp.
    LoadStamp,
    /// Load a brush file (.abr, .gbr).
    LoadBrush,
    /// Export as an xz-compressed `.splatterarchive`.
    ExportArchive,
    /// Import a `.splatterarchive` file.
    ImportArchive,
}

/// What came back from a file dialog and the work done on its pick.
pub enum DialogResult {
    /// A path the user picked, as text.
    Picked(String),
    /// Decoded stamp pixels, dimensions and suggested name.
    StampPixels(Vec<Color32>, u32, u32, String),
    /// Parsed brush tips from a brush file.
    BrushTips(Vec<BrushTip>),
    /// An error occurred during the file operation.
    Error(String),
    /// The user cancelled the dialog.
    Cancelled,
}

/// An action the frame loop dispatches, from a picked path.
#[derive(Debug)]
pub enum DispatchedAction {
    /// Save the canvas to the given path.
    Save(String),
    /// Load a `.splattercanvas` file.
    Load(String),
    /// Import an image file as a new canvas.
    Import(String),
    /// Export the canvas with the format at this index to the path.
    Export(usize, String),
    /// Export a `.splatterarchive` file.
    ExportArchive(String),
    /// Import a `.splatterarchive` file.
    ImportArchive(String),
}

/// The action a picked `path` leads to for `pending`: canvas saves and
/// archive exports get their extension appended when missing, exports the
/// format's first extension when they end with none of its extensions;
/// stamp and brush loads lead to none.
pub open spec fn dispatched_for(pending: PendingFileAction, path: Seq<char>, a: Option<DispatchedAction>) -> bool {
    match pending {
        PendingFileAction::Save => a matches Some(DispatchedAction::Save(p)) && p@ == with_extension(path, CANVAS_EXTENSION@),
        PendingFileAction::Load => a matches Some(DispatchedAction::Load(p)) && p@ == path,
        PendingFileAction::Import => a matches Some(DispatchedAction::Import(p)) && p@ == path,
        PendingFileAction::Export(i) => a matches Some(DispatchedAction::Export(j, p)) && j == i && p@ == export_path(path, export_extensions(i as int)),
        PendingFileAction::ExportArchive => a matches Some(DispatchedAction::ExportArchive(p)) && p@ == with_extension(path, ARCHIVE_EXTENSION@),
        PendingFileAction::ImportArchive => a matches Some(DispatchedAction::ImportArchive(p)) && p@ == path,
        PendingFileAction::LoadStamp | PendingFileAction::LoadBrush => a is None,
    }
}

/// Turn a picked path into the action `pending` asked for (see
/// [`dispatched_for`]); `exports` is the export format table.
pub fn dispatch_picked(pending: PendingFileAction, path: String) -> (a: Option<DispatchedAction>)
    requires
        pending matches PendingFileAction::Export(i) ==> i < 13,
    ensures
        dispatched_for(pending, path@, a),
{
    match pending {
        PendingFileAction::Save => Some(DispatchedAction::Save(complete_with(path, CANVAS_EXTENSION))),
        PendingFileAction::Load => Some(DispatchedAction::Load(path)),
        PendingFileAction::Import => Some(DispatchedAction::Import(path)),
        PendingFileAction::Export(index) => {
            let formats = export_formats();
            let exts = formats[index].1.extensions;
            Some(DispatchedAction::Export(index, complete_export(path, exts)))
        },
        PendingFileAction::ExportArchive => Some(DispatchedAction::ExportArchive(complete_with(path, ARCHIVE_EXTENSION))),
        PendingFileAction::ImportArchive => Some(DispatchedAction::ImportArchive(path)),
        PendingFileAction::LoadStamp | PendingFileAction::LoadBrush => None,
    }
}

/// `std::sync::mpsc::Sender::send`: queue `result` on the channel.  Whether
/// it arrives depends on the receiving end still being alive, so nothing
/// is stated; a send to a closed channel is dropped.
#[verifier::external_body]
fn send_dialog_result(sender: &std::sync::mpsc::Sender<DialogResult>, result: DialogResult) {
    let _ = sender.send(result);
}

/// Tracks file dialogs: the pending action, the result channel, and the
/// stamp or brush data a dialog loaded for the interface to pick up.
pub struct DialogManager {
    /// File action waiting for its dialog's result.
    pub pending_file_action: Option<PendingFileAction>,
    /// Channel sender for dialog results.
    pub dialog_sender: std::sync::mpsc::Sender<DialogResult>,
    /// Channel receiver for dialog results.
    pub dialog_receiver: std::sync::mpsc::Receiver<DialogResult>,
    /// Loaded stamp pixels, dimensions and name, waiting to be consumed.
    pub loaded_stamp_data: Option<(Vec<Color32>, u32, u32, String)>,
    /// Loaded brush tips, waiting to be consumed.
    pub loaded_brush_data: Option<Vec<BrushTip>>,
}

/// What a native file dialog for an action shows: the filter's name and
/// extensions, the suggested file name for save dialogs, and whether it
/// saves or opens.
pub struct DialogRequest {
    pub filter_name: &'static str,
    pub extensions: Vec<&'static str>,
    pub default_name: Option<String>,
    pub save: bool,
}

/// The extensions of an array as a vector.
fn ext_vec(a: &'static [&'static str]) -> (v: Vec<&'static str>)
    ensures
        v@ == a@,
{
    let mut v: Vec<&'static str> = Vec::new();
    let mut i: usize = 0;
    while i < a.len()
        invariant
            i <= a@.len(),
            v@ == a@.subrange(0, i as int),
        decreases a@.len() - i,
    {
        v.push(a[i]);
        i = i + 1;
        assert(v@ =~= a@.subrange(0, i as int));
    }
    assert(a@.subrange(0, a@.len() as int) =~= a@);
    v
}

/// "splattercanvas" and "splatterarchive": the native extensions without
/// their dot, as dialog filters take them.
pub const CANVAS_FILTER_EXTENSIONS: [&'static str; 1] = ["splattercanvas"];
pub const ARCHIVE_FILTER_EXTENSIONS: [&'static str; 1] = ["splatterarchive"];
/// The brush file extensions.
pub const BRUSH_EXTENSIONS: [&'static str; 2] = ["abr", "gbr"];

/// The dialog that a pending `action` opens: canvas and archive saves and
/// loads filter on their native extension (saves suggesting the default
/// file name), imports and stamp loads on the image extensions, brush
/// loads on .abr and .gbr, exports on the format's label ([`export_label`](crate::app_state::export_label)) and extensions
/// suggesting "export." and its first extension.
pub open spec fn requested(action: PendingFileAction, req: DialogRequest) -> bool {
    &&& req.save == (action is Save || action is Export || action is ExportArchive)
    &&& match action {
        PendingFileAction::Save => req.filter_name@ == crate::app_state::FILE_FILTER_NAME@
            && req.extensions@ == CANVAS_FILTER_EXTENSIONS@ && (req.default_name matches Some(n)
            && n@ == crate::app_state::DEFAULT_CANVAS_NAME@),
        PendingFileAction::Load => req.filter_name@ == crate::app_state::FILE_FILTER_NAME@
            && req.extensions@ == CANVAS_FILTER_EXTENSIONS@ && req.default_name is None,
        PendingFileAction::Import | PendingFileAction::LoadStamp => req.filter_name@ == "Images"@
            && req.extensions@ == crate::app_state::IMPORT_EXTENSIONS@ && req.default_name is None,
        PendingFileAction::Export(i) => req.filter_name@ == crate::app_state::export_label(i as int)
            && req.extensions@ == export_extensions(i as int)
            && (req.default_name matches Some(n) && n@ == "export."@ + export_extensions(i as int)[0]@),
        PendingFileAction::LoadBrush => req.filter_name@ == "Brush Files"@ && req.extensions@
            == BRUSH_EXTENSIONS@ && req.default_name is None,
        PendingFileAction::ExportArchive => req.filter_name@ == crate::app_state::ARCHIVE_FILTER_NAME@
            && req.extensions@ == ARCHIVE_FILTER_EXTENSIONS@ && (req.default_name matches Some(n)
            && n@ == crate::app_state::DEFAULT_ARCHIVE_NAME@),
        PendingFileAction::ImportArchive => req.filter_name@ == crate::app_state::ARCHIVE_FILTER_NAME@
            && req.extensions@ == ARCHIVE_FILTER_EXTENSIONS@ && req.default_name is None,
    }
}

impl DialogManager {
    /// Create a dialog manager with nothing pending or loaded.
    pub fn new(
        dialog_sender: std::sync::mpsc::Sender<DialogResult>,
        dialog_receiver: std::sync::mpsc::Receiver<DialogResult>,
    ) -> (m: DialogManager)
        ensures
            m.pending_file_action is None,
            m.dialog_sender == dialog_sender,
            m.dialog_receiver == dialog_receiver,
            m.loaded_stamp_data is None,
            m.loaded_brush_data is None,
    {
        DialogManager {
            pending_file_action: None,
            dialog_sender,
            dialog_receiver,
            loaded_stamp_data: None,
            loaded_brush_data: None,
        }
    }

    /// Record `action` as pending and describe the dialog it opens
    /// ([`requested`]).
    pub fn queue_file_action(&mut self, action: PendingFileAction) -> (req: DialogRequest)
        requires
            action matches PendingFileAction::Export(i) ==> i < 13,
        ensures
            final(self).pending_file_action == Some(action),
            final(self).loaded_stamp_data == old(self).loaded_stamp_data,
            final(self).loaded_brush_data == old(self).loaded_brush_data,
            requested(action, req),
    {
        self.pending_file_action = Some(action);
        match action {
            PendingFileAction::Save => DialogRequest {
                filter_name: crate::app_state::FILE_FILTER_NAME,
                extensions: ext_vec(&CANVAS_FILTER_EXTENSIONS),
                default_name: Some(String::from_str(crate::app_state::DEFAULT_CANVAS_NAME)),
                save: true,
            },
            PendingFileAction::Load => DialogRequest {
                filter_name: crate::app_state::FILE_FILTER_NAME,
                extensions: ext_vec(&CANVAS_FILTER_EXTENSIONS),
                default_name: None,
                save: false,
            },
            PendingFileAction::Import | PendingFileAction::LoadStamp => DialogRequest {
                filter_name: "Images",
                extensions: ext_vec(&crate::app_state::IMPORT_EXTENSIONS),
                default_name: None,
                save: false,
            },
            PendingFileAction::Export(index) => {
                let formats = export_formats();
                let exts = formats[index].1.extensions;
                let mut name = String::from_str("export.");
                name.append(exts[0]);
                DialogRequest {
                    filter_name: formats[index].0,
                    extensions: ext_vec(exts),
                    default_name: Some(name),
                    save: true,
                }
            },
            PendingFileAction::LoadBrush => DialogRequest {
                filter_name: "Brush Files",
                extensions: ext_vec(&BRUSH_EXTENSIONS),
                default_name: None,
                save: false,
            },
            PendingFileAction::ExportArchive => DialogRequest {
                filter_name: crate::app_state::ARCHIVE_FILTER_NAME,
                extensions: ext_vec(&ARCHIVE_FILTER_EXTENSIONS),
                default_name: Some(String::from_str(crate::app_state::DEFAULT_ARCHIVE_NAME)),
                save: true,
            },
            PendingFileAction::ImportArchive => DialogRequest {
                filter_name: crate::app_state::ARCHIVE_FILTER_NAME,
                extensions: ext_vec(&ARCHIVE_FILTER_EXTENSIONS),
                default_name: None,
                save: false,
            },
        }
    }

    /// Load `path` as a canvas without a dialog (a recent file): the load
    /// becomes the pending action and the path is queued on the dialog
    /// channel as if the user had picked it.
    pub fn queue_load_direct(&mut self, path: String)
        ensures
            final(self).pending_file_action == Some(PendingFileAction::Load),
            final(self).loaded_stamp_data == old(self).loaded_stamp_data,
            final(self).loaded_brush_data == old(self).loaded_brush_data,
            final(self).dialog_sender == old(self).dialog_sender,
            final(self).dialog_receiver == old(self).dialog_receiver,
    {
        self.pending_file_action = Some(PendingFileAction::Load);
        send_dialog_result(&self.dialog_sender, DialogResult::Picked(path));
    }

    /// Apply one dialog result: loaded stamp or brush data is kept for the
    /// interface, a cancellation or an error (added to `error_list`) ends
    /// the pending action, and a picked path ends it and becomes the
    /// action it asked for ([`dispatched_for`]); a pick with nothing
    /// pending is ignored.
    pub fn handle_dialog_result(&mut self, error_list: &mut Vec<String>, result: DialogResult) -> (a: Option<DispatchedAction>)
        requires
            old(self).pending_file_action matches Some(PendingFileAction::Export(i)) ==> i < 13,
        ensures
            match result {
                DialogResult::Picked(path) => match old(self).pending_file_action {
                    Some(pending) => dispatched_for(pending, path@, a),
                    None => a is None,
                },
                _ => a is None,
            },
            final(self).pending_file_action is None,
            match result {
                DialogResult::StampPixels(pixels, w, h, name) => final(self).loaded_stamp_data == Some((pixels, w, h, name)),
                _ => final(self).loaded_stamp_data == old(self).loaded_stamp_data,
            },
            match result {
                DialogResult::BrushTips(tips) => final(self).loaded_brush_data == Some(tips),
                _ => final(self).loaded_brush_data == old(self).loaded_brush_data,
            },
            match result {
                DialogResult::Error(msg) => final(error_list)@ == old(error_list)@.push(msg),
                _ => final(error_list)@ == old(error_list)@,
            },
    {
        match result {
            DialogResult::StampPixels(pixels, w, h, name) => {
                self.loaded_stamp_data = Some((pixels, w, h, name));
                self.pending_file_action = None;
                None
            },
            DialogResult::BrushTips(tips) => {
                self.loaded_brush_data = Some(tips);
                self.pending_file_action = None;
                None
            },
            DialogResult::Cancelled => {
                self.pending_file_action = None;
                None
            },
            DialogResult::Error(msg) => {
                error_list.push(msg);
                self.pending_file_action = None;
                None
            },
            DialogResult::Picked(path) => {
                let pending = self.pending_file_action;
                self.pending_file_action = None;
                match pending {
                    None => None,
                    Some(p) => dispatch_picked(p, path),
                }
            },
        }
    }
}

/// Whether a background export runs.
pub struct ExportTracker {
    /// `true` while an export is running.
    pub export_in_flight: bool,
}

impl ExportTracker {
    /// Nothing running.
    pub fn new() -> (t: ExportTracker)
        ensures
            !t.export_in_flight,
    {
        ExportTracker { export_in_flight: false }
    }

    /// Record that an export has started.
    pub fn begin(&mut self)
        ensures
            final(self).export_in_flight,
    {
        self.export_in_flight = true;
    }

    /// Apply a finished export: it no longer runs, and a failure adds
    /// "Export failed: " and its message to `error_list`.
    pub fn apply_export_result(&mut self, error_list: &mut Vec<String>, result: Result<(), String>)
        ensures
            !final(self).export_in_flight,
            match result {
                Ok(()) => final(error_list)@ == old(error_list)@,
                Err(message) => {
                    &&& final(error_list)@.len() == old(error_list)@.len() + 1
                    &&& final(error_list)@.drop_last() == old(error_list)@
                    &&& final(error_list)@.last()@ == "Export failed: "@ + message@
                },
            },
    {
        self.export_in_flight = false;
        match result {
            Ok(()) => {},
            Err(message) => {
                let mut text = String::from_str("Export failed: ");
                text.append(message.as_str());
                error_list.push(text);
            },
        }
    }
}

/// What came back from background loading or importing.
pub enum LoadImportResult {
    /// A canvas loaded from a `.splattercanvas` file, with its path.
    Loaded(Canvas, String),
    /// An image imported as layers of the given width and height.
    Imported(Vec<Layer>, u32, u32),
    /// A canvas imported from a `.splatterarchive` file.
    ArchiveImported(Canvas),
    /// The operation failed with this message.
    Failed(String),
}

/// Tracks background loads and imports: the result channel and whether a
/// load or an import is running.
pub struct LoadImportManager {
    /// Channel sender for load and import results.
    pub load_import_sender: std::sync::mpsc::Sender<LoadImportResult>,
    /// Channel receiver for load and import results.
    pub load_import_receiver: std::sync::mpsc::Receiver<LoadImportResult>,
    /// `true` while a load (or archive import) is running.
    pub load_in_flight: bool,
    /// `true` while an image import is running.
    pub import_in_flight: bool,
}

/// The canvas a result installs, when it installs one.
pub open spec fn installed_canvas(result: LoadImportResult) -> Option<(Seq<crate::canvas::LayerView>, u32, u32)> {
    match result {
        LoadImportResult::Loaded(c, _) => Some((c.layers(), c.width, c.height)),
        LoadImportResult::Imported(layers, w, h) => Some((layers@.map_values(|l: Layer| l@), w, h)),
        LoadImportResult::ArchiveImported(c) => Some((c.layers(), c.width, c.height)),
        LoadImportResult::Failed(_) => None,
    }
}

/// The result's canvas fits the undo buffers' pixel indices.
pub open spec fn result_fits(result: LoadImportResult) -> bool {
    match result {
        LoadImportResult::Loaded(c, _) => c.width * c.height <= u32::MAX,
        LoadImportResult::Imported(_, w, h) => w * h <= u32::MAX,
        LoadImportResult::ArchiveImported(c) => c.width * c.height <= u32::MAX,
        LoadImportResult::Failed(_) => true,
    }
}

impl LoadImportManager {
    /// Create a manager with nothing running.
    pub fn new(
        load_import_sender: std::sync::mpsc::Sender<LoadImportResult>,
        load_import_receiver: std::sync::mpsc::Receiver<LoadImportResult>,
    ) -> (m: LoadImportManager)
        ensures
            m.load_import_sender == load_import_sender,
            m.load_import_receiver == load_import_receiver,
            !m.load_in_flight,
            !m.import_in_flight,
    {
        LoadImportManager { load_import_sender, load_import_receiver, load_in_flight: false, import_in_flight: false }
    }

    /// Record that a load or archive import (`import` false) or an image
    /// import (`import` true) has started.
    pub fn begin(&mut self, import: bool)
        ensures
            final(self).load_in_flight == (!import || old(self).load_in_flight),
            final(self).import_in_flight == (import || old(self).import_in_flight),
    {
        if import {
            self.import_in_flight = true;
        } else {
            self.load_in_flight = true;
        }
    }

    /// Apply one load or import result: a loaded canvas replaces the
    /// document's and sets its save path; imported layers become a new
    /// canvas that replaces it; an archive's canvas replaces it; a failure
    /// adds its message to `error_list`.  The matching in-flight flag (both
    /// on failure) is cleared.
    pub fn handle_load_import_result(
        &mut self,
        document: &mut Document,
        undo: &mut UndoHistory,
        error_list: &mut Vec<String>,
        result: LoadImportResult,
    )
        requires
            result_fits(result),
        ensures
            match installed_canvas(result) {
                Some((layers, w, h)) => {
                    &&& final(document).canvas.layers() == layers
                    &&& final(document).canvas.width == w
                    &&& final(document).canvas.height == h
                    &&& final(document).canvas.dirty_rect@.len() == 0
                    &&& !final(document).dirty_since_last_autosave
                    &&& final(undo).undo_stack@.len() == 0
                    &&& final(undo).redo_stack@.len() == 0
                    &&& final(undo).visited@.len() == w * h
                    &&& final(error_list)@ == old(error_list)@
                },
                None => {
                    &&& *final(document) == *old(document)
                    &&& *final(undo) == *old(undo)
                },
            },
            match result {
                LoadImportResult::Loaded(_, path) => final(document).savefile_path == path
                    && !final(self).load_in_flight && final(self).import_in_flight == old(self).import_in_flight,
                LoadImportResult::Imported(..) => final(document).savefile_path@.len() == 0
                    && !final(self).import_in_flight && final(self).load_in_flight == old(self).load_in_flight,
                LoadImportResult::ArchiveImported(_) => final(document).savefile_path@.len() == 0
                    && !final(self).load_in_flight && final(self).import_in_flight == old(self).import_in_flight,
                LoadImportResult::Failed(msg) => final(error_list)@ == old(error_list)@.push(msg)
                    && !final(self).load_in_flight && !final(self).import_in_flight,
            },
    {
        match result {
            LoadImportResult::Loaded(canvas, save_path) => {
                self.load_in_flight = false;
                document.replace_canvas(canvas, undo);
                document.savefile_path = save_path;
            },
            LoadImportResult::Imported(layers, width, height) => {
                self.import_in_flight = false;
                let mut dirty_rect = DirtyRectList::new();
                dirty_rect.request_full_blend();
                let canvas = Canvas {
                    pixels: layers,
                    height,
                    width,
                    output_rgba: Vec::new(),
                    dirty_rect,
                    render_next_frame: true,
                };
                proof {
                    assert(canvas.layers() == canvas.pixels@.map_values(|l: Layer| l@));
                }
                document.replace_canvas(canvas, undo);
            },
            LoadImportResult::ArchiveImported(canvas) => {
                self.load_in_flight = false;
                document.replace_canvas(canvas, undo);
            },
            LoadImportResult::Failed(message) => {
                self.load_in_flight = false;
                self.import_in_flight = false;
                error_list.push(message);
            },
        }
    }
}

/// The file workflows of the application together: file dialogs, saves,
/// loads and imports, and exports.
pub struct FileIO {
    /// File dialogs and the action pending on them.
    pub dialogs: DialogManager,
    /// Background saves and the autosave directory.
    pub saves: SaveManager,
    /// Background loads and imports.
    pub loads: LoadImportManager,
    /// Whether an export runs.
    pub exports: ExportTracker,
}

impl FileIO {
    /// Gather the managers, with no export running.
    pub fn new(dialogs: DialogManager, saves: SaveManager, loads: LoadImportManager) -> (f: FileIO)
        ensures
            f.dialogs == dialogs,
            f.saves == saves,
            f.loads == loads,
            !f.exports.export_in_flight,
    {
        FileIO { dialogs, saves, loads, exports: ExportTracker::new() }
    }

    /// The autosave directory: the data directory joined with
    /// [`AUTOSAVE_DIRECTORY`].
    pub fn autosave_directory(&self) -> (d: std::path::PathBuf)
        ensures
            d == joined_path(self.saves.app_local_data_directory, AUTOSAVE_DIRECTORY@),
    {
        self.saves.autosave_directory()
    }

    /// Record `action` as pending and describe the dialog it opens
    /// ([`requested`]).
    pub fn queue_file_action(&mut self, action: PendingFileAction) -> (req: DialogRequest)
        requires
            action matches PendingFileAction::Export(i) ==> i < 13,
        ensures
            final(self).dialogs.pending_file_action == Some(action),
            final(self).dialogs.loaded_stamp_data == old(self).dialogs.loaded_stamp_data,
            final(self).dialogs.loaded_brush_data == old(self).dialogs.loaded_brush_data,
            requested(action, req),
            final(self).saves == old(self).saves,
            final(self).loads == old(self).loads,
            final(self).exports == old(self).exports,
    {
        self.dialogs.queue_file_action(action)
    }

    /// Load `path` as a canvas without a dialog (a recent file): the load
    /// becomes the pending action and the path is queued on the dialog
    /// channel as if the user had picked it.
    pub fn queue_load_direct(&mut self, path: String)
        ensures
            final(self).dialogs.pending_file_action == Some(PendingFileAction::Load),
            final(self).dialogs.loaded_stamp_data == old(self).dialogs.loaded_stamp_data,
            final(self).dialogs.loaded_brush_data == old(self).dialogs.loaded_brush_data,
            final(self).saves == old(self).saves,
            final(self).loads == old(self).loads,
            final(self).exports == old(self).exports,
    {
        self.dialogs.queue_load_direct(path)
    }

    /// Apply one dialog result as [`DialogManager::handle_dialog_result`]
    /// does, except that a picked export path leads to no action while
    /// `document` has no blended output to export.
    pub fn handle_dialog_result(&mut self, document: &Document, error_list: &mut Vec<String>, result: DialogResult) -> (a: Option<DispatchedAction>)
        requires
            old(self).dialogs.pending_file_action matches Some(PendingFileAction::Export(i)) ==> i < 13,
        ensures
            match result {
                DialogResult::Picked(path) => match old(self).dialogs.pending_file_action {
                    Some(PendingFileAction::Export(_)) => if document.canvas.output_rgba@.len() == 0 {
                        a is None
                    } else {
                        dispatched_for(old(self).dialogs.pending_file_action->0, path@, a)
                    },
                    Some(pending) => dispatched_for(pending, path@, a),
                    None => a is None,
                },
                _ => a is None,
            },
            final(self).dialogs.pending_file_action is None,
            match result {
                DialogResult::StampPixels(pixels, w, h, name) => final(self).dialogs.loaded_stamp_data == Some((pixels, w, h, name)),
                _ => final(self).dialogs.loaded_stamp_data == old(self).dialogs.loaded_stamp_data,
            },
            match result {
                DialogResult::BrushTips(tips) => final(self).dialogs.loaded_brush_data == Some(tips),
                _ => final(self).dialogs.loaded_brush_data == old(self).dialogs.loaded_brush_data,
            },
            match result {
                DialogResult::Error(msg) => final(error_list)@ == old(error_list)@.push(msg),
                _ => final(error_list)@ == old(error_list)@,
            },
            final(self).saves == old(self).saves,
            final(self).loads == old(self).loads,
            final(self).exports == old(self).exports,
    {
        let action = self.dialogs.handle_dialog_result(error_list, result);
        match action {
            Some(DispatchedAction::Export(_, _)) => {
                if document.canvas.output_rgba.len() == 0 {
                    return None;
                }
                action
            },
            _ => action,
        }
    }
}

} // verus!
