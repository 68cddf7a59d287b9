//! The rules by which a serving peer starts up and answers requests.

use crate::server::fs::{lookup_tree, NodeKind, VfsError, VirtualFileSystem};
use crate::server::lookup::LookupDirOrFile;
use crate::utils::text::{decimal, decimal_string};
use vstd::prelude::*;

verus! {

/// Where a serving peer takes its file system from.
#[derive(Debug)]
pub enum CreateArgs {
    /// Scan these host paths and seal what is found.
    Pathes(Vec<String>),
    /// Load the snapshot at this path.
    LoadPath(String),
}

impl CreateArgs {
    /// The choice that the command line makes: paths to scan win over a
    /// snapshot to load; with neither there is no choice.
    pub fn from_options(path: Vec<String>, load_path: Option<String>) -> (args: Option<CreateArgs>)
        ensures
            path@.len() > 0 ==> args == Some(CreateArgs::Pathes(path)),
            path@.len() == 0 ==> match load_path {
                Some(file) => args == Some(CreateArgs::LoadPath(file)),
                None => args is None,
            },
    {
        if path.len() == 0 {
            match load_path {
                Some(file) => Some(CreateArgs::LoadPath(file)),
                None => None,
            }
        } else {
            Some(CreateArgs::Pathes(path))
        }
    }
}

/// How many seconds pass between two announcements of a serving peer.
pub const HEARTBEAT_INTERVAL_SECONDS: u64 = 30;

/// The address on which a peer listens: host, colon, port.
pub open spec fn bind_address_text(address: Seq<char>, port: nat) -> Seq<char> {
    address + ":"@ + decimal(port)
}

/// The address on which a peer listens.
pub fn bind_address(address: &str, port: u16) -> (text: String)
    ensures
        text@ == bind_address_text(address@, port as nat),
{
    let mut text = String::from_str(address);
    text.append(":");
    text.append(decimal_string(port as usize).as_str());
    text
}

/// The base URL under which a peer that listens on `addr` announces itself.
pub fn base_url(addr: &str) -> (url: String)
    ensures
        url@ == "http://"@ + addr@,
{
    let mut url = String::from_str("http://");
    url.append(addr);
    url
}

/// The answer to a query for the tree behind a digest.
#[derive(Debug)]
pub enum QueryReply {
    /// The request named no digest.
    BadRequest,
    /// No node has the digest.
    NotFound,
    /// The lookup view of the node that has the digest.
    Found(LookupDirOrFile),
}

/// Answers a query: a request without digest is a bad request, an unknown
/// digest is not found, and a known one is answered with its lookup view.
pub fn query(vfs: &VirtualFileSystem, md5: Option<&String>) -> (reply: QueryReply)
    ensures
        match md5 {
            None => reply is BadRequest,
            Some(digest) => match vfs@.find(digest@) {
                None => reply is NotFound,
                Some(id) => reply matches QueryReply::Found(tree) && tree@ == lookup_tree(
                    vfs@.items,
                    id as int,
                ),
            },
        },
{
    match md5 {
        None => QueryReply::BadRequest,
        Some(digest) => match vfs.lookup(digest.as_str()) {
            Some(tree) => QueryReply::Found(tree),
            None => QueryReply::NotFound,
        },
    }
}

/// The answer to a request for the bytes of a file.
#[derive(Debug)]
pub enum DownloadReply {
    /// The request named no digest.
    BadRequest,
    /// No node has the digest.
    NotFound { message: String },
    /// The digest is not that of a file.
    ServerError { message: String },
    /// The body is the content of the file at this host path.
    Send { path: String },
}

/// The text of a reply that found no file for a digest.
pub open spec fn not_found_text(md5: Seq<char>) -> Seq<char> {
    "File not found "@ + md5
}

/// The text of a reply to a request that could not be served.
pub open spec fn server_error_text(error: VfsError) -> Seq<char> {
    "Internal server error: "@ + error.text()
}

/// Answers a download request: a request without digest is a bad request,
/// an unknown digest is not found, the digest of a directory is a server
/// error, and the digest of a file is answered with the file's host path.
pub fn download(vfs: &VirtualFileSystem, md5: Option<&String>) -> (reply: DownloadReply)
    ensures
        match md5 {
            None => reply is BadRequest,
            Some(digest) => match vfs@.find(digest@) {
                None => reply matches DownloadReply::NotFound { message } && message@
                    == not_found_text(digest@),
                Some(id) => match vfs@.items[id as int].kind {
                    NodeKind::Dir { .. } => reply matches DownloadReply::ServerError { message }
                        && message@ == server_error_text(VfsError::IsDir),
                    NodeKind::File { .. } => reply matches DownloadReply::Send { path } && path@
                        == vfs@.items[id as int].path,
                },
            },
        },
{
    match md5 {
        None => DownloadReply::BadRequest,
        Some(digest) => match vfs.file_path(digest.as_str()) {
            Ok(path) => DownloadReply::Send { path },
            Err(error) => {
                if error == VfsError::NotFound {
                    let mut message = String::from_str("File not found ");
                    message.append(digest.as_str());
                    DownloadReply::NotFound { message }
                } else {
                    let mut message = String::from_str("Internal server error: ");
                    message.append(error.message().as_str());
                    DownloadReply::ServerError { message }
                }
            },
        },
    }
}

} // verus!
