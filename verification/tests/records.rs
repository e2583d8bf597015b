use fries_corpus_script::records::{
    classify_line, dedup_dep_or_order_info, dedup_funcinfo, dedup_seq, LineOutcome, RecordKind,
};

fn lines(v: &[&str]) -> Vec<String> {
    v.iter().map(|s| s.to_string()).collect()
}

fn plain(idx: usize, cnt: usize, key: &str) -> String {
    let red_or_line = " | ";
    format!("{} {} {} {} {}", idx, red_or_line, cnt, red_or_line, key) + "\n"
}

fn seq_line(idx: usize, cnt: i32, seq: &str) -> String {
    let parts: Vec<&str> = seq.split(" ").collect();
    let red_or_line = " | ";
    format!(
        "\x1b[92midx:\x1b[0m {} {} \x1b[92mcnt:\x1b[0m {} {} \x1b[92mseq_len:\x1b[0m {} {} {}",
        idx,
        red_or_line,
        cnt,
        red_or_line,
        parts.len() - 1,
        red_or_line,
        seq,
    ) + "\n"
}

#[test]
fn dep_info_tallies_and_ranks_pairs() {
    let input = lines(&[
        "src/a.rs:   my_lib::foo   my_lib::bar   3",
        "src/b.rs:   my_lib::foo   my_lib::bar   2",
        "src/c.rs:   my_lib::baz   other   7",
        "src/d.rs:   other::q   my_lib::x   9",
        "nothing here",
        "src/e.rs my_lib without the separator",
    ]);
    let r = dedup_dep_or_order_info("my-lib", &input).ok().unwrap();
    assert_eq!(r.total, 12);
    assert_eq!(
        r.lines,
        vec![plain(0, 7, "my_lib::baz   other"), plain(1, 5, "my_lib::foo   my_lib::bar")]
    );
}

#[test]
fn dep_info_ties_keep_first_appearance() {
    let input = lines(&[
        "a:   my_lib::b   x   4",
        "a:   my_lib::a   x   4",
        "a:   my_lib::c   x   9",
        "a:   my_lib::a   x   0",
    ]);
    let r = dedup_dep_or_order_info("my_lib", &input).ok().unwrap();
    assert_eq!(r.total, 17);
    assert_eq!(
        r.lines,
        vec![plain(0, 9, "my_lib::c   x"), plain(1, 4, "my_lib::b   x"), plain(2, 4, "my_lib::a   x")]
    );
}

#[test]
fn dep_info_accepts_a_plus_sign() {
    let input = lines(&["a:   my_lib::b   x   +4"]);
    let r = dedup_dep_or_order_info("my_lib", &input).ok().unwrap();
    assert_eq!(r.lines, vec![plain(0, 4, "my_lib::b   x")]);
}

#[test]
fn dep_info_stops_on_missing_column() {
    let input = lines(&["ok:   my_lib::a   b   1", "a:   my_lib::foo"]);
    assert_eq!(dedup_dep_or_order_info("my_lib", &input).err(), Some(1));
}

#[test]
fn dep_info_stops_on_missing_count() {
    let input = lines(&["a:   my_lib::foo   bar"]);
    assert_eq!(dedup_dep_or_order_info("my_lib", &input).err(), Some(0));
}

#[test]
fn dep_info_stops_on_bad_count() {
    let input = lines(&["a:   my_lib::foo   bar   x", "b:   my_lib::foo   bar   -1"]);
    assert_eq!(dedup_dep_or_order_info("my_lib", &input).err(), Some(0));
    let input = lines(&["b:   my_lib::foo   bar   -1"]);
    assert_eq!(dedup_dep_or_order_info("my_lib", &input).err(), Some(0));
}

#[test]
fn dep_info_skips_pairs_of_other_crates_before_checking_the_count() {
    let input = lines(&["a:   other::foo   bar"]);
    let r = dedup_dep_or_order_info("my_lib", &input).ok().unwrap();
    assert_eq!(r.total, 0);
    assert!(r.lines.is_empty());
}

#[test]
fn dep_info_stops_when_the_sum_overflows() {
    let max = format!("a:   my_lib::x   y   {}", usize::MAX);
    let input = vec![max, "b:   my_lib::z   y   1".to_string(), "c:   my_lib::w".to_string()];
    assert_eq!(dedup_dep_or_order_info("my_lib", &input).err(), Some(1));
}

#[test]
fn dep_info_of_an_empty_file() {
    let r = dedup_dep_or_order_info("my_lib", &Vec::new()).ok().unwrap();
    assert_eq!(r.total, 0);
    assert!(r.lines.is_empty());
}

#[test]
fn funcinfo_tallies_functions() {
    let input = lines(&[
        "f.rs:   main:   my_lib::f   4",
        "f.rs:   main:   my_lib::g   1",
        "f.rs:   run:   my_lib::f   2",
        "f.rs:   my_lib::f   5",
        "f.rs:   run:   other::f   2",
    ]);
    let r = dedup_funcinfo("my-lib", &input).ok().unwrap();
    assert_eq!(r, vec![plain(0, 6, "my_lib::f"), plain(1, 1, "my_lib::g")]);
}

#[test]
fn funcinfo_stops_on_missing_count() {
    let input = lines(&["f.rs:   main:   my_lib::f"]);
    assert_eq!(dedup_funcinfo("my_lib", &input).err(), Some(0));
    let input = lines(&["f.rs:   main:   my_lib::f   many"]);
    assert_eq!(dedup_funcinfo("my_lib", &input).err(), Some(0));
}

#[test]
fn funcinfo_stops_when_a_total_overflows() {
    let input = vec![
        format!("f:   m:   my_lib::f   {}", usize::MAX),
        format!("f:   m:   my_lib::g   {}", usize::MAX),
        "f:   m:   my_lib::f   1".to_string(),
    ];
    assert_eq!(dedup_funcinfo("my_lib", &input).err(), Some(2));
}

#[test]
fn seq_counts_sequences() {
    let input = lines(&[
        "main.rs: my_lib::a my_lib::b",
        "lib.rs: my_lib::c",
        "other.rs: my_lib::a my_lib::b",
        "no library here: x",
        "my_lib",
    ]);
    let r = dedup_seq("my-lib", &input).ok().unwrap();
    assert_eq!(r, vec![seq_line(0, 2, "my_lib::a my_lib::b"), seq_line(1, 1, "my_lib::c")]);
}

#[test]
fn classify_each_kind() {
    match classify_line(RecordKind::PathPair, "a-b", "x:   a_b::f   g   12") {
        LineOutcome::Count(k, n) => {
            assert_eq!(k, "a_b::f   g");
            assert_eq!(n, 12);
        }
        _ => panic!("expected a count"),
    }
    assert!(matches!(classify_line(RecordKind::PathPair, "a-b", "x:   a_b::f"), LineOutcome::Malformed));
    assert!(matches!(classify_line(RecordKind::Function, "a-b", "x:   y"), LineOutcome::Skip));
    match classify_line(RecordKind::CallSequence, "z", "z: q: r") {
        LineOutcome::Count(k, n) => {
            assert_eq!(k, "q");
            assert_eq!(n, 1);
        }
        _ => panic!("expected a count"),
    }
}
