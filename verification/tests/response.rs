use cached_compression::algorithm::Algorithm;
use cached_compression::compression::{CachedCompression, Candidate};
use cached_compression::encoder::Action;
use cached_compression::paths::{artifact_path_of, extension_of};
use cached_compression::response::{media_type_of, FileResponse, Header};

fn file(path: &str) -> FileResponse {
    FileResponse { path: path.to_string(), headers: Vec::new() }
}

fn pairs(response: &FileResponse) -> Vec<(String, String)> {
    response.headers.iter().map(|h| (h.name.clone(), h.value.clone())).collect()
}

fn unwrap_file(candidate: Candidate) -> FileResponse {
    match candidate {
        Candidate::File(file) => file,
        Candidate::Other => panic!("not a file"),
    }
}

fn ready(path: &str) -> CachedCompression {
    let mut compression = CachedCompression::new();
    let job = compression.dispatch(Algorithm::Gzip, path).unwrap();
    compression.complete(job, true);
    compression
}

#[test]
fn artifact_lies_beside_the_asset() {
    assert_eq!(artifact_path_of("static/index.txt", Algorithm::Gzip), "static/index.txt.gzip");
    assert_eq!(artifact_path_of("foo.txt", Algorithm::Gzip), "foo.txt.gzip");
    assert_eq!(artifact_path_of("noext", Algorithm::Gzip), "noext.gzip");
    assert_eq!(artifact_path_of("", Algorithm::Gzip), ".gzip");
}

#[test]
fn extension_follows_the_last_dot_of_the_file_name() {
    assert_eq!(extension_of("static/index.txt"), Some("txt"));
    assert_eq!(extension_of("index.tar.gz"), Some("gz"));
    assert_eq!(extension_of("a.b/c"), None);
    assert_eq!(extension_of("a.b/c.d"), Some("d"));
    assert_eq!(extension_of("dir/.hidden"), None);
    assert_eq!(extension_of("dir/.hidden.txt"), Some("txt"));
    assert_eq!(extension_of("dir/name."), Some(""));
    assert_eq!(extension_of("dir/.."), None);
    assert_eq!(extension_of(".."), None);
    assert_eq!(extension_of("..b"), Some("b"));
    assert_eq!(extension_of("noext"), None);
    assert_eq!(extension_of(""), None);
    assert_eq!(extension_of("dir/"), None);
    assert_eq!(extension_of("a/b.txt/"), Some("txt"));
    assert_eq!(extension_of("a/b.txt/."), Some("txt"));
    assert_eq!(extension_of("a/b.txt/./"), Some("txt"));
    assert_eq!(extension_of("a/b.txt//"), Some("txt"));
    assert_eq!(extension_of("a/b.txt/.."), None);
    assert_eq!(extension_of("."), None);
    assert_eq!(extension_of("/"), None);
    assert_eq!(extension_of("..."), Some(""));
    assert_eq!(extension_of("\u{e9}t\u{e9}.\u{3b1}\u{3b2}"), Some("\u{3b1}\u{3b2}"));
}

#[test]
fn extension_agrees_with_the_standard_library() {
    let parts = ["", "a", "b.txt", ".", "..", "...", ".c", "d.", "e.f.g", "..h", "i.j."];
    let joins = ["/", "//", "/./", "/../"];
    let mut paths: Vec<String> = Vec::new();
    for x in parts {
        paths.push(x.to_string());
        for j in joins {
            paths.push(format!("{}{}", x, j));
            paths.push(format!("{}{}", j, x));
            for y in parts {
                paths.push(format!("{}{}{}", x, j, y));
                for k in joins {
                    paths.push(format!("{}{}{}{}", x, j, y, k));
                    paths.push(format!("{}{}{}{}", k, x, j, y));
                    for z in parts {
                        paths.push(format!("{}{}{}{}{}", x, j, y, k, z));
                    }
                }
            }
        }
    }
    assert!(paths.len() > 5000);
    for path in &paths {
        let expected = std::path::Path::new(path).extension().map(|e| e.to_str().unwrap());
        assert_eq!(extension_of(path), expected, "{:?}", path);
    }
}

#[test]
fn media_type_is_looked_up_by_extension() {
    assert_eq!(media_type_of("static/index.txt").as_deref(), Some("text/plain; charset=utf-8"));
    assert_eq!(media_type_of("INDEX.HTML").as_deref(), Some("text/html; charset=utf-8"));
    assert_eq!(media_type_of("pic.png").as_deref(), Some("image/png"));
    assert_eq!(media_type_of("file.unknown-extension"), None);
    assert_eq!(media_type_of("noext"), None);
    assert_eq!(media_type_of("txt"), None);
}

#[test]
fn encode_appends_headers_and_renames() {
    let mut response = file("static/index.txt");
    response.headers.push(Header { name: "X-First".to_string(), value: "1".to_string() });
    let encoded = response.encode(Algorithm::Gzip, Some("text/plain".to_string()));
    assert_eq!(encoded.path, "static/index.txt.gzip");
    assert_eq!(
        pairs(&encoded),
        vec![
            ("X-First".to_string(), "1".to_string()),
            ("Content-Type".to_string(), "text/plain".to_string()),
            ("Content-Encoding".to_string(), "gzip".to_string()),
        ]
    );
}

#[test]
fn encode_without_media_type_adds_the_coding_only() {
    let encoded = file("blob").encode(Algorithm::Gzip, None);
    assert_eq!(encoded.path, "blob.gzip");
    assert_eq!(pairs(&encoded), vec![("Content-Encoding".to_string(), "gzip".to_string())]);
}

#[test]
fn scenario_first_request_is_served_plain_and_wants_a_copy() {
    let mut compression = CachedCompression::new();
    let first = compression.rewrite(Candidate::File(file("static/index.txt")), &["gzip"]);
    assert_eq!(first.wanted, Some(Algorithm::Gzip));
    let response = unwrap_file(first.response);
    assert_eq!(response.path, "static/index.txt");
    assert!(response.headers.is_empty());

    let job = compression.dispatch(Algorithm::Gzip, "static/index.txt").unwrap();
    let during = compression.rewrite(Candidate::File(file("static/index.txt")), &["gzip"]);
    assert_eq!(during.wanted, Some(Algorithm::Gzip));
    assert_eq!(unwrap_file(during.response).path, "static/index.txt");
    assert!(compression.dispatch(Algorithm::Gzip, "static/index.txt").is_none());
    compression.complete(job, true);

    let second = compression.rewrite(Candidate::File(file("static/index.txt")), &["gzip"]);
    assert_eq!(second.wanted, None);
    let response = unwrap_file(second.response);
    assert_eq!(response.path, "static/index.txt.gzip");
    assert_eq!(
        pairs(&response),
        vec![
            ("Content-Type".to_string(), "text/plain; charset=utf-8".to_string()),
            ("Content-Encoding".to_string(), "gzip".to_string()),
        ]
    );
}

#[test]
fn scenario_zero_weight_is_always_served_plain() {
    let compression = ready("static/index.txt");
    let rewritten = compression.rewrite(Candidate::File(file("static/index.txt")), &["gzip; q=0"]);
    assert_eq!(rewritten.wanted, None);
    let response = unwrap_file(rewritten.response);
    assert_eq!(response.path, "static/index.txt");
    assert!(response.headers.is_empty());
    let fresh = CachedCompression::new();
    let rewritten = fresh.rewrite(Candidate::File(file("static/index.txt")), &["gzip; q = 0"]);
    assert_eq!(rewritten.wanted, None);
    assert_eq!(unwrap_file(rewritten.response).path, "static/index.txt");
}

#[test]
fn scenario_weight_of_one_half_is_served_compressed_when_ready() {
    let compression = ready("static/index.txt");
    let rewritten = compression.rewrite(Candidate::File(file("static/index.txt")), &["gzip; q=0.5"]);
    assert_eq!(rewritten.wanted, None);
    let response = unwrap_file(rewritten.response);
    assert_eq!(response.path, "static/index.txt.gzip");
    assert_eq!(response.headers.last().unwrap().name, "Content-Encoding");
    assert_eq!(response.headers.last().unwrap().value, "gzip");
    let fresh = CachedCompression::new();
    let rewritten = fresh.rewrite(Candidate::File(file("static/index.txt")), &["gzip; q = 0.5"]);
    assert_eq!(rewritten.wanted, Some(Algorithm::Gzip));
}

#[test]
fn scenario_absent_header_is_served_plain() {
    let compression = ready("static/index.txt");
    let rewritten = compression.rewrite(Candidate::File(file("static/index.txt")), &[]);
    assert_eq!(rewritten.wanted, None);
    let response = unwrap_file(rewritten.response);
    assert_eq!(response.path, "static/index.txt");
    assert!(response.headers.is_empty());
}

#[test]
fn unknown_coding_is_served_plain_and_known_one_behind_it_compressed() {
    let compression = ready("static/index.txt");
    let plain = compression.rewrite(Candidate::File(file("static/index.txt")), &["flate"]);
    assert_eq!(plain.wanted, None);
    assert_eq!(unwrap_file(plain.response).path, "static/index.txt");
    let packed = compression.rewrite(Candidate::File(file("static/index.txt")), &["flate,gzip"]);
    assert_eq!(unwrap_file(packed.response).path, "static/index.txt.gzip");
}

#[test]
fn other_candidates_pass_through() {
    let compression = ready("static/index.txt");
    let rewritten = compression.rewrite(Candidate::Other, &["gzip"]);
    assert_eq!(rewritten.wanted, None);
    assert!(matches!(rewritten.response, Candidate::Other));
}

#[test]
fn readiness_is_by_asset() {
    let compression = ready("static/index.txt");
    let rewritten = compression.rewrite(Candidate::File(file("static/other.txt")), &["gzip"]);
    assert_eq!(rewritten.wanted, Some(Algorithm::Gzip));
    assert_eq!(unwrap_file(rewritten.response).path, "static/other.txt");
}

#[test]
fn copy_of_asset_without_known_media_type_has_no_content_type() {
    let compression = ready("static/blob");
    let rewritten = compression.rewrite(Candidate::File(file("static/blob")), &["gzip"]);
    let response = unwrap_file(rewritten.response);
    assert_eq!(response.path, "static/blob.gzip");
    assert_eq!(pairs(&response), vec![("Content-Encoding".to_string(), "gzip".to_string())]);
}

#[test]
fn job_encoder_writes_a_gzip_stream() {
    let mut compression = CachedCompression::new();
    let job = compression.dispatch(Algorithm::Gzip, "a.txt").unwrap();
    let mut encoder = job.encoder();
    let mut written = Vec::new();
    let mut fed = false;
    loop {
        match encoder.step() {
            Action::Read => {
                assert!(encoder.supply(if fed { b"" } else { b"content" }));
                fed = true;
            }
            Action::Write => written.extend_from_slice(encoder.output()),
            Action::Done => break,
            Action::Fail(error) => panic!("{:?}", error),
        }
    }
    assert_eq!(&written[..2], &[0x1f, 0x8b]);
    compression.complete(job, true);
    assert!(compression.is_ready("a.txt", Algorithm::Gzip));
}
