use fries_corpus_script::command::{
    must_wait, parse_batch_size, AnalysisRun, reported_thread_total, Gen, ParseDependents, Run, Step,
    DEFAULT_MAX_NUM, FULL_RUN_PARSE_LIMIT,
};

fn cmd(clone: bool, parse: bool, dedup: bool) -> ParseDependents {
    ParseDependents { lib_name: "url".to_string(), max_num: DEFAULT_MAX_NUM, clone, parse, dedup }
}

#[test]
fn each_flag_runs_its_step() {
    assert_eq!(cmd(true, true, true).run_command(), vec![Step::CloneDependents(500)]);
    assert_eq!(cmd(false, true, true).run_command(), vec![Step::ParseCrates(500)]);
    assert_eq!(
        cmd(false, false, true).run_command(),
        vec![Step::DedupDepInfo, Step::DedupOrderInfo, Step::DedupFuncInfo, Step::DedupSeq]
    );
}

#[test]
fn no_flag_runs_everything() {
    assert_eq!(
        cmd(false, false, false).run_command(),
        vec![
            Step::CloneDependents(500),
            Step::ParseCrates(FULL_RUN_PARSE_LIMIT),
            Step::DedupDepInfo,
            Step::DedupOrderInfo,
            Step::DedupFuncInfo,
            Step::DedupSeq
        ]
    );
    assert_eq!(FULL_RUN_PARSE_LIMIT, 10000);
}

#[test]
fn analyses_stop_one_short_of_the_bound() {
    assert_eq!(parse_batch_size(10, 500), 10);
    assert_eq!(parse_batch_size(10, 5), 4);
    assert_eq!(parse_batch_size(10, 11), 10);
    assert_eq!(parse_batch_size(10, 10), 9);
    assert_eq!(parse_batch_size(0, 5), 0);
    assert_eq!(parse_batch_size(3, 0), 0);
    assert_eq!(parse_batch_size(3, 1), 0);
    assert_eq!(reported_thread_total(10, 5), 5);
    assert_eq!(reported_thread_total(3, 5), 3);
}

#[test]
fn at_most_three_analyses_run_freely() {
    assert!(!must_wait(3));
    assert!(must_wait(4));
    assert!(!must_wait(0));
}

#[test]
fn gen_and_run_do_nothing() {
    let mut g = Gen {};
    g.run_command();
    let mut r = Run {};
    r.run_command();
}

#[test]
fn analysis_runs_the_leading_batch_whatever_the_results() {
    let paths: Vec<String> = (0..6).map(|i| format!("/d/c{}", i)).collect();
    let mut run = AnalysisRun::new(&paths, 4);
    let (i0, d0) = run.next_job().unwrap();
    assert_eq!((i0, d0.as_str()), (0, "/d/c0"));
    run.job_done(false);
    let (i1, d1) = run.next_job().unwrap();
    assert_eq!((i1, d1.as_str()), (1, "/d/c1"));
    assert_eq!(run.running(), 1);
    run.job_done(true);
    let (i2, _) = run.next_job().unwrap();
    assert_eq!(i2, 2);
    assert!(run.next_job().is_none());
    run.job_done(false);
    assert_eq!(run.finished(), 3);
    assert_eq!(run.succeeded(), 1);
    assert_eq!(run.remaining(), 1);
    assert_eq!(run.started(), 3);
}
