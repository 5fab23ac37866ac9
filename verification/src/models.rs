//! The models that a search needs, and how their files are brought in.
use crate::display::push_decimal;
use vstd::prelude::*;
use vstd::string::*;

verus! {

use crate::display::decimal;

/// What a model is for.
#[derive(Clone, Copy, Debug, PartialEq, Eq, Structural)]
pub enum ModelType {
    Embedder,
    Reranker,
}

/// A file of a model, and where it is published.
pub struct ModelFile {
    pub filename: &'static str,
    pub repo_id: &'static str,
    /// The folder within the repository; empty for the top.
    pub subfolder: &'static str,
}

/// A model.
pub struct ModelMetadata {
    pub name: &'static str,
    pub kind: ModelType,
    pub files: Vec<ModelFile>,
}

/// What a [`ModelFile`] holds.
pub struct FileView {
    pub filename: Seq<char>,
    pub repo_id: Seq<char>,
    pub subfolder: Seq<char>,
}

/// What a [`ModelMetadata`] holds.
pub struct ModelView {
    pub name: Seq<char>,
    pub kind: ModelType,
    pub files: Seq<FileView>,
}

impl View for ModelFile {
    type V = FileView;

    open spec fn view(&self) -> FileView {
        FileView {
            filename: self.filename@,
            repo_id: self.repo_id@,
            subfolder: self.subfolder@,
        }
    }
}

impl View for ModelMetadata {
    type V = ModelView;

    open spec fn view(&self) -> ModelView {
        ModelView {
            name: self.name@,
            kind: self.kind,
            files: self.files@.map_values(|f: ModelFile| f@),
        }
    }
}

pub open spec fn embedder() -> ModelView {
    let repo = "Xenova/multilingual-e5-large"@;
    ModelView {
        name: "multilingual-e5-large"@,
        kind: ModelType::Embedder,
        files: seq![
            FileView { filename: "model.onnx"@, repo_id: repo, subfolder: "onnx"@ },
            FileView { filename: "model.onnx_data"@, repo_id: repo, subfolder: "onnx"@ },
            FileView { filename: "tokenizer.json"@, repo_id: repo, subfolder: ""@ },
        ],
    }
}

pub open spec fn reranker() -> ModelView {
    let repo = "Xenova/ms-marco-MiniLM-L-6-v2"@;
    ModelView {
        name: "ms-marco-MiniLM-L-6-v2"@,
        kind: ModelType::Reranker,
        files: seq![
            FileView { filename: "model.onnx"@, repo_id: repo, subfolder: "onnx"@ },
            FileView { filename: "tokenizer.json"@, repo_id: repo, subfolder: ""@ },
        ],
    }
}

fn model_file(
    filename: &'static str,
    repo_id: &'static str,
    subfolder: &'static str,
) -> (r: ModelFile)
    ensures
        r@ == (FileView { filename: filename@, repo_id: repo_id@, subfolder: subfolder@ }),
{
    ModelFile { filename, repo_id, subfolder }
}

/// The models that a search needs: the embedder, then the reranker.
pub fn models() -> (r: Vec<ModelMetadata>)
    ensures
        r@.map_values(|m: ModelMetadata| m@) == seq![embedder(), reranker()],
{
    let repo = "Xenova/multilingual-e5-large";
    let mut files: Vec<ModelFile> = Vec::new();
    files.push(model_file("model.onnx", repo, "onnx"));
    files.push(model_file("model.onnx_data", repo, "onnx"));
    files.push(model_file("tokenizer.json", repo, ""));
    let first = ModelMetadata { name: "multilingual-e5-large", kind: ModelType::Embedder, files };
    proof {
        assert(first@.files =~= embedder().files);
    }
    let repo = "Xenova/ms-marco-MiniLM-L-6-v2";
    let mut files: Vec<ModelFile> = Vec::new();
    files.push(model_file("model.onnx", repo, "onnx"));
    files.push(model_file("tokenizer.json", repo, ""));
    let second = ModelMetadata {
        name: "ms-marco-MiniLM-L-6-v2",
        kind: ModelType::Reranker,
        files,
    };
    proof {
        assert(second@.files =~= reranker().files);
    }
    let mut out: Vec<ModelMetadata> = Vec::new();
    out.push(first);
    out.push(second);
    proof {
        assert(out@.map_values(|m: ModelMetadata| m@) =~= seq![embedder(), reranker()]);
    }
    out
}

/// The address of a file.
pub open spec fn url_of(file: FileView) -> Seq<char> {
    let base = "https://huggingface.co/"@ + file.repo_id + "/resolve/main/"@;
    if file.subfolder.len() == 0 {
        base + file.filename
    } else {
        base + file.subfolder + "/"@ + file.filename
    }
}

/// The address from which `file` is downloaded.
pub fn download_url(file: &ModelFile) -> (r: String)
    ensures
        r@ == url_of(file@),
{
    let mut out = "https://huggingface.co/".to_owned();
    out.append(file.repo_id);
    out.append("/resolve/main/");
    if !file.subfolder.is_empty() {
        out.append(file.subfolder);
        out.append("/");
    }
    out.append(file.filename);
    out
}

/// Where the download of the models stands. Models and the files of a model are told by
/// their places.
#[derive(Clone, Copy)]
pub enum Download {
    /// The directory of the model is to be made.
    Directory { model: usize },
    /// The file is to be looked for.
    Look { model: usize, file: usize },
    /// The file is missing and is to be requested.
    Request { model: usize, file: usize },
    /// The file was received and is to be stored.
    Store { model: usize, file: usize },
    /// All files are there.
    Finished,
}

/// What came of the last step of a download.
#[derive(Clone, Copy)]
pub enum Arrival {
    /// The directory is there.
    DirectoryMade,
    /// The file is there.
    Present,
    /// The file is not there.
    Absent,
    /// The server answered, with this status.
    Response(u16),
    /// The file was stored.
    Stored,
}

/// The numbers of files of the models.
pub open spec fn file_counts(models: Seq<ModelMetadata>) -> Seq<nat> {
    models.map_values(|m: ModelMetadata| m.files@.len())
}

/// The place is that of a file of the models.
pub open spec fn is_file(counts: Seq<nat>, model: int, file: int) -> bool {
    0 <= model < counts.len() && 0 <= file < counts[model]
}

impl Download {
    /// The download stands at a model, or a file, that there is.
    pub open spec fn wf(self, counts: Seq<nat>) -> bool {
        match self {
            Download::Directory { model } => model < counts.len(),
            Download::Look { model, file } => is_file(counts, model as int, file as int),
            Download::Request { model, file } => is_file(counts, model as int, file as int),
            Download::Store { model, file } => is_file(counts, model as int, file as int),
            Download::Finished => true,
        }
    }

    /// The arrival answers what is being done.
    pub open spec fn expects(self, arrival: Arrival) -> bool {
        match self {
            Download::Directory { .. } => arrival is DirectoryMade,
            Download::Look { .. } => arrival is Present || arrival is Absent,
            Download::Request { .. } => arrival is Response,
            Download::Store { .. } => arrival is Stored,
            Download::Finished => false,
        }
    }

    /// The download is past the file: it is known to be there.
    pub open spec fn is_past(self, m: int, f: int) -> bool {
        match self {
            Download::Directory { model } => m < model,
            Download::Look { model, file } => m < model || m == model && f < file,
            Download::Request { model, file } => m < model || m == model && f < file,
            Download::Store { model, file } => m < model || m == model && f < file,
            Download::Finished => true,
        }
    }
}

/// The status of an answer that holds what was asked for.
pub open spec fn is_success(status: u16) -> bool {
    200 <= status < 300
}

/// Where the download stands once the directory of a model is there.
pub open spec fn in_model(counts: Seq<nat>, model: int) -> Download {
    if counts[model] > 0 {
        Download::Look { model: model as usize, file: 0 }
    } else {
        past_model(counts, model)
    }
}

/// Where the download stands once all files of a model are there.
pub open spec fn past_model(counts: Seq<nat>, model: int) -> Download {
    if model + 1 < counts.len() {
        Download::Directory { model: (model + 1) as usize }
    } else {
        Download::Finished
    }
}

/// Where the download stands once a file is there.
pub open spec fn past_file(counts: Seq<nat>, model: int, file: int) -> Download {
    if file + 1 < counts[model] {
        Download::Look { model: model as usize, file: (file + 1) as usize }
    } else {
        past_model(counts, model)
    }
}

/// What a step leads to, where it is not refused.
pub open spec fn successor(counts: Seq<nat>, at: Download, arrival: Arrival) -> Download {
    match at {
        Download::Directory { model } => in_model(counts, model as int),
        Download::Look { model, file } => if arrival is Present {
            past_file(counts, model as int, file as int)
        } else {
            Download::Request { model, file }
        },
        Download::Request { model, file } => Download::Store { model, file },
        Download::Store { model, file } => past_file(counts, model as int, file as int),
        Download::Finished => Download::Finished,
    }
}

/// The server does not hand out what was requested.
pub open spec fn is_refused(at: Download, arrival: Arrival) -> bool {
    at is Request && !is_success(arrival->Response_0)
}

/// The report of a file that the server does not hand out.
pub open spec fn refusal(status: u16, model: Seq<char>, filename: Seq<char>) -> Seq<char> {
    "HTTP "@ + decimal(status as nat) + " fetching "@ + model + "/"@ + filename
}

/// The report of a request that is refused.
pub open spec fn refused(models: Seq<ModelMetadata>, at: Download, arrival: Arrival) -> Seq<char> {
    let model = models[at->Request_model as int];
    refusal(arrival->Response_0, model.name@, model.files@[at->Request_file as int].filename@)
}

/// Where a download begins.
pub open spec fn first_step(counts: Seq<nat>) -> Download {
    if counts.len() > 0 {
        Download::Directory { model: 0 }
    } else {
        Download::Finished
    }
}

/// The first step of a download.
pub fn start_download(models: &Vec<ModelMetadata>) -> (r: Download)
    ensures
        r.wf(file_counts(models@)),
        r == first_step(file_counts(models@)),
{
    if models.len() > 0 {
        Download::Directory { model: 0 }
    } else {
        Download::Finished
    }
}

fn after_model(models: &Vec<ModelMetadata>, model: usize) -> (r: Download)
    requires
        model < models@.len(),
    ensures
        r == past_model(file_counts(models@), model as int),
{
    if model < models.len() - 1 {
        Download::Directory { model: model + 1 }
    } else {
        Download::Finished
    }
}

fn after_file(models: &Vec<ModelMetadata>, model: usize, file: usize) -> (r: Download)
    requires
        is_file(file_counts(models@), model as int, file as int),
    ensures
        r == past_file(file_counts(models@), model as int, file as int),
{
    if file < models[model].files.len() - 1 {
        Download::Look { model, file: file + 1 }
    } else {
        after_model(models, model)
    }
}

/// The step that follows `at` when `arrival` came of it. Files that are there are left
/// alone, missing ones are requested and stored, and a request that is refused ends the
/// download with a report.
pub fn next_download(models: &Vec<ModelMetadata>, at: Download, arrival: Arrival) -> (r: Result<
    Download,
    String,
>)
    requires
        at.wf(file_counts(models@)),
        at.expects(arrival),
    ensures
        is_refused(at, arrival) ==> (r matches Err(report) && report@ == refused(
            models@,
            at,
            arrival,
        )),
        !is_refused(at, arrival) ==> (r matches Ok(next) && next.wf(file_counts(models@)) && next
            == successor(file_counts(models@), at, arrival)),
{
    match at {
        Download::Directory { model } => {
            if models[model].files.len() > 0 {
                Ok(Download::Look { model, file: 0 })
            } else {
                Ok(after_model(models, model))
            }
        },
        Download::Look { model, file } => match arrival {
            Arrival::Present => Ok(after_file(models, model, file)),
            _ => Ok(Download::Request { model, file }),
        },
        Download::Request { model, file } => {
            let status: u16 = match arrival {
                Arrival::Response(s) => s,
                _ => 0,
            };
            if 200 <= status && status < 300 {
                Ok(Download::Store { model, file })
            } else {
                let mut report = "HTTP ".to_owned();
                push_decimal(&mut report, status as u128);
                report.append(" fetching ");
                report.append(models[model].name);
                report.append("/");
                report.append(models[model].files[file].filename);
                Err(report)
            }
        },
        Download::Store { model, file } => Ok(after_file(models, model, file)),
        Download::Finished => Ok(Download::Finished),
    }
}

/// In a step of a download, the file was found or stored.
pub open spec fn is_brought_by(step: (Download, Arrival), m: int, f: int) -> bool {
    match step.0 {
        Download::Look { model, file } => step.1 is Present && m == model && f == file,
        Download::Store { model, file } => m == model && f == file,
        _ => false,
    }
}

/// A download passes a file only when the file was found or stored: a step leaves behind
/// what was behind it before, and the file at which it stands exactly when that file was
/// found or stored.
pub proof fn law_download_passes_only_present_files(
    counts: Seq<nat>,
    at: Download,
    arrival: Arrival,
    m: int,
    f: int,
)
    requires
        at.wf(counts),
        at.expects(arrival),
        counts.len() <= usize::MAX,
        forall|i: int| 0 <= i < counts.len() ==> #[trigger] counts[i] <= usize::MAX,
        is_file(counts, m, f),
    ensures
        successor(counts, at, arrival).is_past(m, f) <==> at.is_past(m, f) || is_brought_by(
            (at, arrival),
            m,
            f,
        ),
{
}

/// The steps lead from the beginning of a download to `end`: each arrival answers what
/// was being done, and no request was refused.
pub open spec fn leads_to(counts: Seq<nat>, steps: Seq<(Download, Arrival)>, end: Download) -> bool
    decreases steps.len(),
{
    if steps.len() == 0 {
        end == first_step(counts)
    } else {
        let (at, arrival) = steps.last();
        &&& leads_to(counts, steps.drop_last(), at)
        &&& at.wf(counts)
        &&& at.expects(arrival)
        &&& !is_refused(at, arrival)
        &&& end == successor(counts, at, arrival)
    }
}

proof fn lemma_past_files_were_brought(
    counts: Seq<nat>,
    steps: Seq<(Download, Arrival)>,
    end: Download,
    m: int,
    f: int,
)
    requires
        counts.len() <= usize::MAX,
        forall|i: int| 0 <= i < counts.len() ==> #[trigger] counts[i] <= usize::MAX,
        leads_to(counts, steps, end),
        is_file(counts, m, f),
        end.is_past(m, f),
    ensures
        exists|k: int| 0 <= k < steps.len() && #[trigger] is_brought_by(steps[k], m, f),
    decreases steps.len(),
{
    if steps.len() > 0 {
        let (at, arrival) = steps.last();
        law_download_passes_only_present_files(counts, at, arrival, m, f);
        if at.is_past(m, f) {
            let before = steps.drop_last();
            lemma_past_files_were_brought(counts, before, at, m, f);
            let k = choose|k: int| 0 <= k < before.len() && #[trigger] is_brought_by(before[k], m, f);
            assert(is_brought_by(steps[k], m, f));
        } else {
            assert(is_brought_by(steps[steps.len() - 1], m, f));
        }
    }
}

/// A download that finishes has brought every file: each was found or stored in some
/// step.
pub proof fn law_finished_downloads_have_every_file(
    counts: Seq<nat>,
    steps: Seq<(Download, Arrival)>,
    m: int,
    f: int,
)
    requires
        counts.len() <= usize::MAX,
        forall|i: int| 0 <= i < counts.len() ==> #[trigger] counts[i] <= usize::MAX,
        leads_to(counts, steps, Download::Finished),
        is_file(counts, m, f),
    ensures
        exists|k: int| 0 <= k < steps.len() && #[trigger] is_brought_by(steps[k], m, f),
{
    lemma_past_files_were_brought(counts, steps, Download::Finished, m, f);
}

/// The embedder has three files and the reranker two: the graph, which for the embedder has
/// its weights beside it, in the folder `onnx` of the repository, and the tokenizer at its
/// top.
pub proof fn law_models_are_published()
    ensures
        embedder().kind == ModelType::Embedder,
        reranker().kind == ModelType::Reranker,
        embedder().name == "multilingual-e5-large"@,
        reranker().name == "ms-marco-MiniLM-L-6-v2"@,
        embedder().files.len() == 3,
        reranker().files.len() == 2,
        embedder().files[0].filename == "model.onnx"@,
        embedder().files[1].filename == "model.onnx_data"@,
        embedder().files[2].filename == "tokenizer.json"@,
        reranker().files[0].filename == "model.onnx"@,
        reranker().files[1].filename == "tokenizer.json"@,
        forall|i: int|
            0 <= i < 3 ==> (#[trigger] embedder().files[i]).repo_id
                == "Xenova/multilingual-e5-large"@ && (if i < 2 {
                embedder().files[i].subfolder == "onnx"@
            } else {
                embedder().files[i].subfolder == ""@
            }),
        forall|i: int|
            0 <= i < 2 ==> (#[trigger] reranker().files[i]).repo_id
                == "Xenova/ms-marco-MiniLM-L-6-v2"@ && (if i < 1 {
                reranker().files[i].subfolder == "onnx"@
            } else {
                reranker().files[i].subfolder == ""@
            }),
{
}

/// The address of a file has the repository, the folder, where there is one, and the file's
/// name, each behind a slash.
pub proof fn law_addresses_name_repository_folder_and_file(file: FileView)
    ensures
        file.subfolder.len() > 0 ==> url_of(file) == "https://huggingface.co/"@ + file.repo_id
            + "/resolve/main/"@ + file.subfolder + "/"@ + file.filename,
        file.subfolder.len() == 0 ==> url_of(file) == "https://huggingface.co/"@ + file.repo_id
            + "/resolve/main/"@ + file.filename,
{
}

/// A file that is there is left alone; one that is not is requested, and then stored. A
/// request is refused exactly where the status is not one from 200 to 299.
pub proof fn law_missing_files_are_requested_and_stored(
    counts: Seq<nat>,
    model: usize,
    file: usize,
    status: u16,
)
    ensures
        successor(counts, Download::Look { model, file }, Arrival::Absent) == (Download::Request {
            model,
            file,
        }),
        successor(counts, Download::Request { model, file }, Arrival::Response(status)) == (
        Download::Store { model, file }),
        successor(counts, Download::Look { model, file }, Arrival::Present) == successor(
            counts,
            Download::Store { model, file },
            Arrival::Stored,
        ),
        is_refused(Download::Request { model, file }, Arrival::Response(status)) <==> status < 200
            || status > 299,
        !is_refused(Download::Look { model, file }, Arrival::Absent),
        !is_refused(Download::Look { model, file }, Arrival::Present),
        !is_refused(Download::Store { model, file }, Arrival::Stored),
        !is_refused(Download::Directory { model }, Arrival::DirectoryMade),
{
}

/// The files are brought in their order: behind a file comes the next one of its model,
/// behind the last one the directory of the next model, and behind a model's directory its
/// first file. A model without files is passed over, and behind the last model the download
/// is finished.
pub proof fn law_files_are_brought_in_order(counts: Seq<nat>, model: usize, file: usize)
    requires
        model < counts.len() <= usize::MAX,
        counts[model as int] <= usize::MAX,
    ensures
        ({
            let behind = successor(counts, Download::Store { model, file }, Arrival::Stored);
            let inside = successor(counts, Download::Directory { model }, Arrival::DirectoryMade);
            &&& file + 1 < counts[model as int] ==> (behind matches Download::Look {
                model: m,
                file: f,
            } && m == model && f == file + 1)
            &&& file + 1 >= counts[model as int] && model + 1 < counts.len() ==> (
            behind matches Download::Directory { model: m } && m == model + 1)
            &&& file + 1 >= counts[model as int] && model + 1 == counts.len() ==> behind
                is Finished
            &&& counts[model as int] > 0 ==> (inside matches Download::Look { model: m, file: f }
                && m == model && f == 0)
            &&& counts[model as int] == 0 && model + 1 < counts.len() ==> (
            inside matches Download::Directory { model: m } && m == model + 1)
            &&& counts[model as int] == 0 && model + 1 == counts.len() ==> inside is Finished
        }),
        first_step(counts) == (Download::Directory { model: 0 }),
        first_step(seq![]) is Finished,
{
}

/// The report of a refused request has the status, the model and the file.
pub proof fn law_refusals_are_reported(
    models: Seq<ModelMetadata>,
    model: usize,
    file: usize,
    status: u16,
)
    requires
        model < models.len(),
        file < models[model as int].files@.len(),
    ensures
        refused(models, Download::Request { model, file }, Arrival::Response(status)) == "HTTP "@
            + decimal(status as nat) + " fetching "@ + models[model as int].name@ + "/"@
            + models[model as int].files@[file as int].filename@,
        file_counts(models).len() == models.len(),
        file_counts(models)[model as int] == models[model as int].files@.len(),
{
}

/// A download takes every answer to what it does: a directory is made, a file is there or
/// is not, the server answers with any status, and a file is stored.
pub proof fn law_every_answer_is_taken(model: usize, file: usize, status: u16)
    ensures
        (Download::Directory { model }).expects(Arrival::DirectoryMade),
        (Download::Look { model, file }).expects(Arrival::Present),
        (Download::Look { model, file }).expects(Arrival::Absent),
        (Download::Request { model, file }).expects(Arrival::Response(status)),
        (Download::Store { model, file }).expects(Arrival::Stored),
{
}

/// A download may stand at the directory of any model and at any file of it.
pub proof fn law_downloads_stand_at_any_file(counts: Seq<nat>, model: usize, file: usize)
    ensures
        (Download::Directory { model }).wf(counts) <==> model < counts.len(),
        (Download::Look { model, file }).wf(counts) <==> model < counts.len() && file
            < counts[model as int],
        (Download::Request { model, file }).wf(counts) <==> (Download::Look { model, file }).wf(counts),
        (Download::Store { model, file }).wf(counts) <==> (Download::Look { model, file }).wf(counts),
        Download::Finished.wf(counts),
{
}

/// The files before the one at which a download stands are behind it, model by model, and
/// all of them once it is finished.
pub proof fn law_files_before_are_passed(model: usize, file: usize, m: int, f: int)
    ensures
        (Download::Directory { model }).is_past(m, f) <==> m < model,
        (Download::Look { model, file }).is_past(m, f) <==> m < model || (m == model && f < file),
        (Download::Request { model, file }).is_past(m, f) <==> m < model || (m == model && f < file),
        (Download::Store { model, file }).is_past(m, f) <==> m < model || (m == model && f < file),
        Download::Finished.is_past(m, f),
{
}

/// A file and a model are seen as they are.
pub proof fn law_models_are_seen_as_they_are(model: ModelMetadata, i: int)
    requires
        0 <= i < model.files@.len(),
    ensures
        model@.name == model.name@,
        model@.kind == model.kind,
        model@.files.len() == model.files@.len(),
        model@.files[i].filename == model.files@[i].filename@,
        model@.files[i].repo_id == model.files@[i].repo_id@,
        model@.files[i].subfolder == model.files@[i].subfolder@,
{
}

} // verus!
