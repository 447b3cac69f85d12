//! What the server answers to a request, as far as it can be decided
//! without touching the disk or the network.

use vstd::prelude::*;
use crate::resolve::{figure_out_request_path, resolved, FiguredOutRequestPath, PathKind, ResolvedTarget};
use crate::state::AppState;
use crate::text::{ends_with_slash, slashes_at_ends, texts};
use crate::upload::{is_outcome, is_plain_name, resolve_upload, UploadOutcome};
use crate::url::{spaces_decoded, unencode_url_spaces};

verus! {

/// What is answered to a request, or done next for it.
#[derive(Debug, PartialEq, Eq)]
pub enum Reply {
    /// 200: the font of the pages.
    Font,
    /// 401: the caller's address is not allowed. The page names the address.
    Unauthorized,
    /// 404, with a page that says whether a directory was asked for.
    NotFoundPage { directory: bool },
    /// 404, without a body.
    NotFound,
    /// 501: data was asked of a file.
    NotImplemented,
    /// 405: nothing can be uploaded there.
    MethodNotAllowed,
    /// 200: the file at this path.
    File(String),
    /// 200: the listing of the directory at this path.
    ListDirectory(String),
    /// 200: the listing of the roots.
    ListVirtualDirectory,
    /// 201, once the uploaded files are stored in the directory at this
    /// path; the body names the files.
    StoreUploads(String),
}

/// A reply, with paths as character sequences.
pub enum ReplyShape {
    Font,
    Unauthorized,
    NotFoundPage { directory: bool },
    NotFound,
    NotImplemented,
    MethodNotAllowed,
    File(Seq<char>),
    ListDirectory(Seq<char>),
    ListVirtualDirectory,
    StoreUploads(Seq<char>),
}

impl View for Reply {
    type V = ReplyShape;

    open spec fn view(&self) -> ReplyShape {
        match self {
            Reply::Font => ReplyShape::Font,
            Reply::Unauthorized => ReplyShape::Unauthorized,
            Reply::NotFoundPage { directory } => ReplyShape::NotFoundPage { directory: *directory },
            Reply::NotFound => ReplyShape::NotFound,
            Reply::NotImplemented => ReplyShape::NotImplemented,
            Reply::MethodNotAllowed => ReplyShape::MethodNotAllowed,
            Reply::File(path) => ReplyShape::File(path@),
            Reply::ListDirectory(path) => ReplyShape::ListDirectory(path@),
            Reply::ListVirtualDirectory => ReplyShape::ListVirtualDirectory,
            Reply::StoreUploads(path) => ReplyShape::StoreUploads(path@),
        }
    }
}

/// The HTTP status of a reply.
pub open spec fn status_of(reply: ReplyShape) -> u16 {
    match reply {
        ReplyShape::Font => 200,
        ReplyShape::Unauthorized => 401,
        ReplyShape::NotFoundPage { directory } => 404,
        ReplyShape::NotFound => 404,
        ReplyShape::NotImplemented => 501,
        ReplyShape::MethodNotAllowed => 405,
        ReplyShape::File(path) => 200,
        ReplyShape::ListDirectory(path) => 200,
        ReplyShape::ListVirtualDirectory => 200,
        ReplyShape::StoreUploads(path) => 201,
    }
}

impl Reply {
    /// The HTTP status of the reply.
    pub fn status(&self) -> (code: u16)
        ensures
            code == status_of(self@),
    {
        match self {
            Reply::Font => 200,
            Reply::Unauthorized => 401,
            Reply::NotFoundPage { directory } => 404,
            Reply::NotFound => 404,
            Reply::NotImplemented => 501,
            Reply::MethodNotAllowed => 405,
            Reply::File(path) => 200,
            Reply::ListDirectory(path) => 200,
            Reply::ListVirtualDirectory => 200,
            Reply::StoreUploads(path) => 201,
        }
    }
}

/// The path under which the font of the pages is served.
pub open spec fn font_path() -> Seq<char> {
    "/gshare3-resources/JetBrainsMono-Medium.woff2"@
}

/// Whether a request is for the font: it is served to every caller, since
/// the page that turns a caller away uses it.
pub open spec fn asks_for_font(uri_path: Seq<char>, data_request: bool) -> bool {
    uri_path == font_path() && !data_request
}

/// The reply to a GET request. `found` is what stands at the candidate path
/// of the decoded request path.
pub open spec fn get_reply(
    state: AppState,
    uri_path: Seq<char>,
    data_request: bool,
    authorized: bool,
    found: PathKind,
) -> ReplyShape {
    let request = spaces_decoded(uri_path);
    if asks_for_font(uri_path, data_request) {
        ReplyShape::Font
    } else if !authorized {
        ReplyShape::Unauthorized
    } else {
        match resolved(state.paths@, request, found) {
            ResolvedTarget::NotFound => ReplyShape::NotFoundPage {
                directory: ends_with_slash(request),
            },
            ResolvedTarget::File(path) => if data_request {
                ReplyShape::NotImplemented
            } else {
                ReplyShape::File(path)
            },
            ResolvedTarget::Directory(path) => ReplyShape::ListDirectory(path),
            ResolvedTarget::VirtualRoot => ReplyShape::ListVirtualDirectory,
        }
    }
}

/// The reply to an upload. `found` is what stands at the candidate path of
/// the request path as it was sent.
pub open spec fn upload_reply(
    state: AppState,
    uri_path: Seq<char>,
    authorized: bool,
    found: PathKind,
) -> ReplyShape {
    if !authorized {
        ReplyShape::Unauthorized
    } else if !(state.upload || state.upload_overwrite) {
        ReplyShape::MethodNotAllowed
    } else {
        match resolved(state.paths@, uri_path, found) {
            ResolvedTarget::VirtualRoot => ReplyShape::MethodNotAllowed,
            ResolvedTarget::File(path) => ReplyShape::MethodNotAllowed,
            ResolvedTarget::NotFound => ReplyShape::NotFound,
            ResolvedTarget::Directory(path) => ReplyShape::StoreUploads(path),
        }
    }
}

/// Decides the reply to a GET request for `uri_path`: the font for its
/// path; a denial for a caller that is not authorized; otherwise what the
/// decoded path names, a file as a download (not as data), a directory or
/// the virtual directory as a listing.
pub fn get_request_handler(
    state: &AppState,
    uri_path: &str,
    is_data_request: bool,
    authorized: bool,
    found: PathKind,
) -> (reply: Reply)
    ensures
        reply@ == get_reply(*state, uri_path@, is_data_request, authorized, found),
{
    if !is_data_request && String::from_str(uri_path) == String::from_str(
        "/gshare3-resources/JetBrainsMono-Medium.woff2",
    ) {
        return Reply::Font;
    }
    if !authorized {
        return Reply::Unauthorized;
    }
    let request_path = unencode_url_spaces(uri_path);
    match figure_out_request_path(state, request_path.as_str(), found) {
        FiguredOutRequestPath::NotFound => Reply::NotFoundPage {
            directory: slashes_at_ends(request_path.as_str()).1,
        },
        FiguredOutRequestPath::File(path) => if is_data_request {
            Reply::NotImplemented
        } else {
            Reply::File(path)
        },
        FiguredOutRequestPath::Directory(path) => Reply::ListDirectory(path),
        FiguredOutRequestPath::VirtualDirectory => Reply::ListVirtualDirectory,
    }
}

/// Decides the reply to an upload to `uri_path`: a denial for a caller that
/// is not authorized; a refusal where uploads are off or the path names a
/// file or the virtual directory; otherwise the directory that takes the
/// files.
pub fn upload_handler(state: &AppState, uri_path: &str, authorized: bool, found: PathKind) -> (reply:
    Reply)
    ensures
        reply@ == upload_reply(*state, uri_path@, authorized, found),
{
    if !authorized {
        return Reply::Unauthorized;
    }
    if !(state.upload || state.upload_overwrite) {
        return Reply::MethodNotAllowed;
    }
    match figure_out_request_path(state, uri_path, found) {
        FiguredOutRequestPath::VirtualDirectory => Reply::MethodNotAllowed,
        FiguredOutRequestPath::File(path) => Reply::MethodNotAllowed,
        FiguredOutRequestPath::NotFound => Reply::NotFound,
        FiguredOutRequestPath::Directory(path) => Reply::StoreUploads(path),
    }
}

/// What is done with one file of an upload into `directory`: it is stored
/// where `resolve_upload` decides, by the server's overwrite policy. A file
/// whose name is no plain name would leave the directory; the upload is
/// then answered like a path that names nothing.
pub fn store_upload(
    state: &AppState,
    directory: &str,
    requested_filename: &str,
    taken: &Vec<String>,
) -> (step: Result<UploadOutcome, Reply>)
    ensures
        step is Ok <==> is_plain_name(requested_filename@),
        step matches Ok(outcome) ==> is_outcome(
            outcome,
            directory@,
            requested_filename@,
            state.upload_overwrite,
            texts(taken@),
        ),
        step matches Err(reply) ==> reply@ == ReplyShape::NotFound,
{
    match resolve_upload(directory, requested_filename, state.upload_overwrite, taken) {
        Some(outcome) => Ok(outcome),
        None => Err(Reply::NotFound),
    }
}

/// A caller that is not authorized gets the same denial to a GET and to an
/// upload, whatever the path names and whatever is on disk. The one thing
/// it can get is the font that the denial page uses.
pub proof fn lemma_unauthorized_is_denied(
    state: AppState,
    uri_path: Seq<char>,
    data_request: bool,
    found_for_get: PathKind,
    found_for_upload: PathKind,
)
    requires
        !asks_for_font(uri_path, data_request),
    ensures
        get_reply(state, uri_path, data_request, false, found_for_get) == ReplyShape::Unauthorized,
        upload_reply(state, uri_path, false, found_for_upload) == ReplyShape::Unauthorized,
        upload_reply(state, font_path(), false, found_for_upload) == ReplyShape::Unauthorized,
{
}

/// `serde_json::Error`: what the serializer reports when it fails. It is
/// carried through unread.
#[verifier::external_type_specification]
#[verifier::external_body]
pub struct ExJsonError(serde_json::Error);

/// The JSON text of a list of strings; none where `serde_json::to_string` fails.
pub uninterp spec fn json_of_names(names: Seq<Seq<char>>) -> Option<Seq<char>>;

/// `serde_json::to_string` on a list of strings. The contract only names
/// what comes back, the text or the failure; it promises neither.
#[verifier::external_body]
fn names_to_json(names: &Vec<String>) -> (json: Result<String, serde_json::Error>)
    ensures
        json matches Ok(text) ==> json_of_names(texts(names@)) == Some(text@),
        json is Err ==> json_of_names(texts(names@)) is None,
{
    serde_json::to_string(names)
}

/// The body of a reply could not be written.
#[derive(Debug, Clone, Copy, PartialEq, Eq, Structural)]
pub enum BodyError {
    /// The serializer failed.
    Serialize,
}

/// The body that a serializer's result stands for.
pub fn body_of(json: Result<String, serde_json::Error>) -> (body: Result<String, BodyError>)
    ensures
        json is Ok <==> body is Ok,
        json matches Ok(text) ==> body == Ok::<String, BodyError>(text),
        json is Err ==> body == Err::<String, BodyError>(BodyError::Serialize),
{
    match json {
        Ok(text) => Ok(text),
        Err(_) => Err(BodyError::Serialize),
    }
}

/// The body of the reply to an upload: the names of the stored files as a
/// JSON array, in the order of the upload.
pub fn created_body(new_filenames: &Vec<String>) -> (body: Result<String, BodyError>)
    ensures
        body is Ok <==> json_of_names(texts(new_filenames@)) is Some,
        body matches Ok(text) ==> json_of_names(texts(new_filenames@)) == Some(text@),
        body matches Err(error) ==> error == BodyError::Serialize,
{
    body_of(names_to_json(new_filenames))
}

} // verus!
