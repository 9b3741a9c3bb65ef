use rwkv_router::gateway::download::{
    bundle, failure_of, host_key, keeps, part_name, report, Download, HOSTS,
};
use std::path::Path;

#[test]
fn part_path_appends_suffix() {
    let target = Path::new("models/router-0.1B-int8.st");
    let name = part_name(target.file_name().unwrap().to_str().unwrap());
    assert_eq!(
        target.with_file_name(name),
        Path::new("models/router-0.1B-int8.st.part")
    );
}

#[test]
fn host_key_mapping() {
    assert_eq!(host_key(HOSTS[0]), "ms");
    assert_eq!(host_key(HOSTS[1]), "hf-mirror");
    assert_eq!(host_key(HOSTS[2]), "hf");
}

#[test]
fn the_bundle_depends_on_the_wish() {
    let base = ["router-0.1B-int8.st", "vocab.json", "router_head.json"];
    assert_eq!(bundle(None).unwrap(), base);
    assert_eq!(bundle(Some("  ")).unwrap(), base);
    assert_eq!(bundle(Some(" 3B ")).unwrap()[3], "rwkv7-3B-int8.st");
    assert_eq!(bundle(Some("7b")).unwrap()[3], "rwkv7-7B-int8.st");
    assert_eq!(
        bundle(Some(" 13b ")).unwrap_err(),
        "--tier-models expects '3b' or '7b', got '13b'"
    );
}

#[test]
fn hosts_are_tried_in_order() {
    let mut d = Download::new("vocab.json");
    assert_eq!(
        d.next_url().unwrap(),
        "https://modelscope.cn/models/cgisky/Ai00-X/resolve/master/rwkv/vocab.json"
    );
    assert_eq!(d.error(), "no host succeeded");
    d.refused("404 Not Found");
    assert_eq!(d.error(), "ms -> HTTP 404 Not Found");
    assert!(d.next_url().unwrap().starts_with("https://hf-mirror.com/"));
    assert!(!d.received(100, 40, None));
    assert_eq!(d.error(), "hf-mirror -> incomplete download (40 bytes)");
    assert_eq!(d.host(), "hf");
    d.failed("connection reset");
    assert_eq!(d.error(), "hf -> connection reset");
    assert_eq!(d.next_url(), None);
}

#[test]
fn completeness_goes_by_bytes() {
    assert!(Download::new("f").received(10, 10, Some("reset")));
    assert!(Download::new("f").received(0, 10, None));
    assert!(!Download::new("f").received(0, 10, Some("reset")));
    assert!(!Download::new("f").received(10, 11, None));
    assert!(keeps(Some(1)));
    assert!(!keeps(Some(0)));
    assert!(!keeps(None));
}

#[test]
fn failures_are_reported_together() {
    assert!(report(&[]).is_ok());
    let failures = [failure_of("a", "x"), failure_of("b", "y")];
    assert_eq!(
        report(&failures).unwrap_err(),
        "some downloads failed:\n  - a: x\n  - b: y\nhint: check connectivity (or re-run; completed files are skipped)"
    );
}
