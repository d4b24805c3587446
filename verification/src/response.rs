//! The response for a file, as the file server hands it over and as it goes
//! back: the path of the file to send and the headers to send with it.

use vstd::prelude::*;

use rocket::http::ContentType;

use crate::algorithm::Algorithm;
use crate::paths::{artifact_path, artifact_path_of, extension, extension_of};

verus! {

/// A response header.
#[derive(Debug)]
pub struct Header {
    pub name: String,
    pub value: String,
}

impl View for Header {
    type V = (Seq<char>, Seq<char>);

    open spec fn view(&self) -> (Seq<char>, Seq<char>) {
        (self.name@, self.value@)
    }
}

/// A response that sends a regular file.
#[derive(Debug)]
pub struct FileResponse {
    /// The path of the file to send.
    pub path: String,
    /// The headers to send with it, in order.
    pub headers: Vec<Header>,
}

/// A file response as plain text.
pub struct FileView {
    pub path: Seq<char>,
    pub headers: Seq<(Seq<char>, Seq<char>)>,
}

impl View for FileResponse {
    type V = FileView;

    open spec fn view(&self) -> FileView {
        FileView {
            path: self.path@,
            headers: Seq::new(self.headers@.len(), |i: int| self.headers@[i]@),
        }
    }
}

/// The media type that an extension stands for, written as the value of a
/// `Content-Type` header: what `rocket::http::ContentType::from_extension`
/// finds, none where it finds nothing.
pub uninterp spec fn media_type(extension: Seq<char>) -> Option<Seq<char>>;

/// Trusted: `rocket::http::ContentType::from_extension`, and the content
/// type it finds written out as the header value that stands for it.
#[verifier::external_body]
fn lookup_media_type(extension: &str) -> (found: Option<String>)
    ensures
        found is Some == media_type(extension@) is Some,
        found matches Some(value) ==> media_type(extension@) == Some(value@),
{
    ContentType::from_extension(extension).map(|content_type| content_type.to_string())
}

/// The media type of the file that a path leads to, as far as its extension
/// tells.
pub open spec fn media_type_at(path: Seq<char>) -> Option<Seq<char>> {
    match extension(path) {
        Some(ext) => media_type(ext),
        None => None,
    }
}

/// The headers that say how a compressed copy is to be read: the media type
/// of the asset, where it is known, and the coding of the copy.
pub open spec fn encoding_headers(algorithm: Algorithm, content_type: Option<Seq<char>>) -> Seq<
    (Seq<char>, Seq<char>),
> {
    let coding = seq![("Content-Encoding"@, algorithm.token())];
    match content_type {
        Some(value) => seq![("Content-Type"@, value)] + coding,
        None => coding,
    }
}

/// The response that sends the compressed copy in place of the asset: the
/// path is that of the copy, and the headers that say how to read it follow
/// those that were there.
pub open spec fn encoded(file: FileView, algorithm: Algorithm, content_type: Option<Seq<char>>) -> FileView {
    FileView {
        path: artifact_path(file.path, algorithm),
        headers: file.headers + encoding_headers(algorithm, content_type),
    }
}

/// The media type of the file that a path leads to, as far as its extension
/// tells.
pub fn media_type_of(path: &str) -> (found: Option<String>)
    ensures
        found is Some == media_type_at(path@) is Some,
        found matches Some(value) ==> media_type_at(path@) == Some(value@),
{
    match extension_of(path) {
        Some(ext) => lookup_media_type(ext),
        None => None,
    }
}

impl FileResponse {
    /// The response that sends the compressed copy for `algorithm` in place
    /// of the asset. `content_type` is the media type of the asset, which the
    /// name of the copy no longer tells.
    pub fn encode(self, algorithm: Algorithm, content_type: Option<String>) -> (response: FileResponse)
        ensures
            response@ == encoded(
                self@,
                algorithm,
                match content_type {
                    Some(value) => Some(value@),
                    None => None,
                },
            ),
    {
        let FileResponse { path, headers } = self;
        let mut headers = headers;
        let ghost before = self@.headers;
        match content_type {
            Some(value) => {
                headers.push(Header { name: "Content-Type".to_owned(), value });
            },
            None => {},
        }
        headers.push(
            Header { name: "Content-Encoding".to_owned(), value: algorithm.name().to_owned() },
        );
        let response = FileResponse { path: artifact_path_of(path.as_str(), algorithm), headers };
        assert(response@.headers =~= encoded(
            self@,
            algorithm,
            match content_type {
                Some(value) => Some(value@),
                None => None,
            },
        ).headers);
        response
    }
}

} // verus!
