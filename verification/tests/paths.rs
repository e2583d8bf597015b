use std::path::PathBuf;

use fries_corpus_script::paths::{
    clone_target_path, get_dependents_dir_path, join_path, library_file_path, RecordFile,
    EXPERIMENT_ROOT_PATH,
};

fn joined(parts: &[&str]) -> String {
    let mut p = PathBuf::from(parts[0]);
    for part in &parts[1..] {
        p = p.join(part);
    }
    p.to_str().unwrap().to_string()
}

#[test]
fn dependents_dir_under_the_experiment_root() {
    assert_eq!(
        get_dependents_dir_path("url"),
        "/home/yxz/workspace/fuzz/experiment_root/url/dependents"
    );
    assert_eq!(get_dependents_dir_path("url"), joined(&[EXPERIMENT_ROOT_PATH, "url", "dependents"]));
}

#[test]
fn join_follows_pathbuf() {
    for (base, part) in [
        ("a", "b"),
        ("a/", "b"),
        ("", "b"),
        ("a", "/abs"),
        ("a", ""),
        ("/", "x"),
        ("a/b", "./c"),
    ] {
        assert_eq!(join_path(base, part), PathBuf::from(base).join(part).to_str().unwrap());
    }
}

#[test]
fn record_and_report_files() {
    assert_eq!(
        RecordFile::DepInfo.input_path("url"),
        joined(&[EXPERIMENT_ROOT_PATH, "url", "depinfo"])
    );
    assert_eq!(
        RecordFile::OrderInfo.report_path("url"),
        joined(&[EXPERIMENT_ROOT_PATH, "url", "orderinfo.txt"])
    );
    assert_eq!(
        RecordFile::FuncInfo.report_path("url"),
        joined(&[EXPERIMENT_ROOT_PATH, "url", "funcinfo.txt"])
    );
    assert_eq!(RecordFile::CallSeq.input_path("url"), joined(&[EXPERIMENT_ROOT_PATH, "url", "seq"]));
    assert_eq!(
        RecordFile::CallSeq.report_path("url"),
        joined(&[EXPERIMENT_ROOT_PATH, "url", "seq-dedup.ans"])
    );
    assert_eq!(RecordFile::OrderInfo.name(), "orderinfo");
    assert_eq!(library_file_path("serde", "x"), joined(&[EXPERIMENT_ROOT_PATH, "serde", "x"]));
}

#[test]
fn clone_targets_are_numbered() {
    assert_eq!(
        clone_target_path("url", 3),
        "/home/yxz/workspace/fuzz/experiment_root/url/dependents/url_dependent3"
    );
    assert_eq!(
        clone_target_path("url", 4294967295),
        joined(&[EXPERIMENT_ROOT_PATH, "url", "dependents", "url_dependent4294967295"])
    );
}
