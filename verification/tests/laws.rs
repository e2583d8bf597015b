use fries_corpus_script::records::{dedup_dep_or_order_info, dedup_funcinfo, dedup_seq};

fn lines(v: &[&str]) -> Vec<String> {
    v.iter().map(|s| s.to_string()).collect()
}

fn counts(report: &[String]) -> Vec<usize> {
    report
        .iter()
        .map(|l| l.split("  |  ").nth(1).unwrap().parse::<usize>().unwrap())
        .collect()
}

#[test]
fn report_counts_add_up_to_the_total() {
    let input = lines(&[
        "a:   my_lib::x   y   3",
        "a:   my_lib::z   y   8",
        "a:   my_lib::x   y   4",
        "a:   my_lib::w   y   1",
    ]);
    let r = dedup_dep_or_order_info("my_lib", &input).ok().unwrap();
    assert_eq!(counts(&r.lines).iter().sum::<usize>(), r.total);
    assert_eq!(r.total, 16);
}

#[test]
fn report_is_ranked_and_keys_are_distinct() {
    let input = lines(&[
        "f:   m:   my_lib::a   2",
        "f:   m:   my_lib::b   5",
        "f:   m:   my_lib::a   2",
        "f:   m:   my_lib::c   4",
        "f:   m:   my_lib::d   4",
    ]);
    let r = dedup_funcinfo("my_lib", &input).ok().unwrap();
    let cs = counts(&r);
    assert_eq!(cs, vec![5, 4, 4, 4]);
    let keys: Vec<&str> = r.iter().map(|l| l.split("  |  ").nth(2).unwrap().trim_end()).collect();
    assert_eq!(keys, vec!["my_lib::b", "my_lib::a", "my_lib::c", "my_lib::d"]);
    for (i, l) in r.iter().enumerate() {
        assert!(l.starts_with(&format!("{}  |  ", i)));
    }
}

fn rows(report: &[String]) -> Vec<(usize, String)> {
    let mut v: Vec<(usize, String)> = report
        .iter()
        .map(|l| {
            let mut parts = l.trim_end().splitn(3, "  |  ");
            parts.next();
            let c = parts.next().unwrap().parse::<usize>().unwrap();
            (c, parts.next().unwrap().to_string())
        })
        .collect();
    v.sort();
    v
}

#[test]
fn reordered_lines_give_the_same_rows() {
    let a = lines(&[
        "a:   my_lib::x   y   3",
        "a:   my_lib::z   y   3",
        "a:   my_lib::x   y   4",
        "a:   my_lib::w   y   1",
    ]);
    let b = lines(&[
        "a:   my_lib::w   y   1",
        "a:   my_lib::x   y   4",
        "a:   my_lib::z   y   3",
        "a:   my_lib::x   y   3",
    ]);
    let ra = dedup_dep_or_order_info("my_lib", &a).ok().unwrap();
    let rb = dedup_dep_or_order_info("my_lib", &b).ok().unwrap();
    assert_eq!(rows(&ra.lines), rows(&rb.lines));
    assert_eq!(ra.total, rb.total);
}

#[test]
fn one_more_sequence_line_adds_one() {
    let mut input = lines(&["a.rs: my_lib::f my_lib::g", "b.rs: my_lib::h"]);
    let before = dedup_seq("my_lib", &input).ok().unwrap();
    input.push("c.rs: my_lib::h".to_string());
    let after = dedup_seq("my_lib", &input).ok().unwrap();
    assert_eq!(before.len(), 2);
    assert_eq!(after.len(), 2);
    assert!(after[0].contains("cnt:\x1b[0m 2") && after[0].ends_with("my_lib::h\n"));
    assert!(after[1].contains("cnt:\x1b[0m 1") && after[1].ends_with("my_lib::f my_lib::g\n"));
}
