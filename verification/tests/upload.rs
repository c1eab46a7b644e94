use ous::upload::{
    arch_display, curl_put_args, index_path, join_url, pool_paths, retry_delay_ms, sidecar_path,
    upload_package, UploadOptions, UploadStep,
};

#[test]
fn test_join_url_slash_tolerance() {
    assert_eq!(
        join_url("https://repo.example.org", "pool/x/foo-1.xcs"),
        "https://repo.example.org/pool/x/foo-1.xcs"
    );
    assert_eq!(
        join_url("https://repo.example.org/", "/pool/x/foo"),
        "https://repo.example.org/pool/x/foo"
    );
}

#[test]
fn test_pool_paths_native_arch() {
    let (archive, sidecar) = pool_paths("hello", "1.0.0", "native");
    assert_eq!(archive, "pool/native/hello/hello-1.0.0.xcs");
    assert_eq!(sidecar, "pool/native/hello/hello-1.0.0.xcs.sha256");
}

#[test]
fn test_pool_paths_explicit_arch() {
    let (archive, sidecar) = pool_paths("hello", "1.0.0", "aarch64");
    assert_eq!(archive, "pool/aarch64/hello/hello-1.0.0.xcs");
    assert_eq!(sidecar, "pool/aarch64/hello/hello-1.0.0.xcs.sha256");
}

#[test]
fn test_index_path_normalizes_arch() {
    assert_eq!(index_path("native"), "index.native.json");
    assert_eq!(index_path(""), "index.native.json");
    assert_eq!(index_path("x86_64"), "index.x86_64.json");
}

#[test]
fn pool_and_index_share_arch_dir() {
    let (archive, _) = pool_paths("a", "1", "");
    assert!(archive.starts_with("pool/native/"));
    assert_eq!(index_path(""), "index.native.json");
    assert_eq!(arch_display(""), "native");
    assert_eq!(arch_display("x86_64"), "x86_64");
}

#[test]
fn join_url_collapses_many_slashes() {
    assert_eq!(join_url("http://h//", "//a"), "http://h/a");
}

#[test]
fn sidecar_path_appends_suffix() {
    assert_eq!(sidecar_path("/tmp/x.xcs"), "/tmp/x.xcs.sha256");
}

fn opts(base: &str, upload_index: bool) -> UploadOptions {
    UploadOptions {
        base_url: base.to_string(),
        token: None,
        arch: "x86_64".to_string(),
        upload_index,
    }
}

#[test]
fn upload_plan_full() {
    let steps = upload_package(
        &opts("https://repo.example/", true),
        "/out/hello-1.0.xcs",
        "hello",
        "1.0",
        true,
        Some(("/out/index.x86_64.json", true)),
    )
    .ok()
    .unwrap();
    assert_eq!(steps.len(), 3);
    match &steps[0] {
        UploadStep::Put { url, file } => {
            assert_eq!(url, "https://repo.example/pool/x86_64/hello/hello-1.0.xcs");
            assert_eq!(file, "/out/hello-1.0.xcs");
        }
        _ => panic!("archive put expected"),
    }
    match &steps[1] {
        UploadStep::Put { url, file } => {
            assert_eq!(url, "https://repo.example/pool/x86_64/hello/hello-1.0.xcs.sha256");
            assert_eq!(file, "/out/hello-1.0.xcs.sha256");
        }
        _ => panic!("sidecar put expected"),
    }
    match &steps[2] {
        UploadStep::Put { url, file } => {
            assert_eq!(url, "https://repo.example/index.x86_64.json");
            assert_eq!(file, "/out/index.x86_64.json");
        }
        _ => panic!("index put expected"),
    }
}

#[test]
fn upload_plan_missing_sidecar() {
    let steps = upload_package(&opts("http://r", false), "/o/a-1.xcs", "a", "1", false, None)
        .ok()
        .unwrap();
    // The archive is put, then the missing sidecar ends the upload.
    assert_eq!(steps.len(), 2);
    assert!(matches!(&steps[0], UploadStep::Put { url, file } if url == "http://r/pool/x86_64/a/a-1.xcs" && file == "/o/a-1.xcs"));
    assert!(matches!(&steps[1], UploadStep::MissingSidecar { file } if file == "/o/a-1.xcs.sha256"));
}

#[test]
fn upload_plan_index_cases() {
    let s = upload_package(&opts("http://r", true), "/o/a-1.xcs", "a", "1", true, None)
        .ok()
        .unwrap();
    assert!(matches!(&s[2], UploadStep::NoIndexSupplied));
    let s = upload_package(
        &opts("http://r", true),
        "/o/a-1.xcs",
        "a",
        "1",
        true,
        Some(("/o/i.json", false)),
    )
    .ok()
    .unwrap();
    assert!(matches!(&s[2], UploadStep::IndexNotFound { file } if file == "/o/i.json"));
}

#[test]
fn upload_rejects_non_http_base() {
    let e = upload_package(&opts("ftp://r", false), "/o/a-1.xcs", "a", "1", true, None)
        .err()
        .unwrap();
    assert_eq!(e.base_url, "ftp://r");
}

#[test]
fn retry_delays_double() {
    assert_eq!(retry_delay_ms(0), Some(500));
    assert_eq!(retry_delay_ms(1), Some(1000));
    assert_eq!(retry_delay_ms(2), Some(2000));
    assert_eq!(retry_delay_ms(3), None);
}

#[test]
fn curl_args_with_and_without_token() {
    let a = curl_put_args("http://u", "/f", None);
    assert_eq!(
        a,
        vec!["--fail", "--silent", "--show-error", "--request", "PUT", "--upload-file", "/f", "http://u"]
    );
    let b = curl_put_args("http://u", "/f", Some("  tok  "));
    assert_eq!(b.len(), 10);
    assert_eq!(b[7], "--header");
    assert_eq!(b[8], "Authorization: Bearer tok");
    assert_eq!(b[9], "http://u");
    let c = curl_put_args("http://u", "/f", Some("   "));
    assert_eq!(c.len(), 8);
}
