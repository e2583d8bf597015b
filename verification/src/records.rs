//! The analysis record files of a library and their deduplicated reports.
//!
//! Three kinds of record lines are read: dependency/order records
//! (`...:   <path>   <path>   <count>`), function records
//! (`...:   ...:   <path>   <count>`) and call-sequence records
//! (`...: <sequence>`). Each line either is skipped, adds a count to a key,
//! or is malformed (the run stops there). The counts are tallied per key and
//! the keys ranked by total.
use vstd::prelude::*;
use vstd::multiset::Multiset;
use crate::tally::{
    has_key, lemma_ranked_reordered, lemma_tally_keys, same_records, sorted_by_count_desc, tally_add,
    add_record, count_sum, entry_views, keys_distinct, key_position, lemma_tally_add_bound,
    lemma_tally_entry_le_sum, lemma_ranked_permutation, rank_entries, Entry, ranked, tally,
};
use crate::text::{
    chars_of, concat, contains, contains_seq, copy_chars, dashes_to_underscores,
    dashes_to_underscores_of, decimal, decimal_of, parse_usize, parse_usize_spec, push_all, split,
    split_seq, starts_with, starts_with_seq, string_of, views,
};

verus! {

/// What one record line contributes: nothing, a count for a key, or a stop
/// of the run because a field the record must have is missing or is not a
/// number.
pub enum LineOutcome<K, N> {
    Skip,
    Count(K, N),
    Malformed,
}

impl<K: View<V = Seq<char>>> View for LineOutcome<K, usize> {
    type V = LineOutcome<Seq<char>, nat>;

    open spec fn view(&self) -> LineOutcome<Seq<char>, nat> {
        match self {
            LineOutcome::Skip => LineOutcome::Skip,
            LineOutcome::Count(k, n) => LineOutcome::Count(k@, *n as nat),
            LineOutcome::Malformed => LineOutcome::Malformed,
        }
    }
}

/// The kinds of record file.
#[derive(Clone, Copy, PartialEq, Eq, Structural, Debug)]
pub enum RecordKind {
    /// Pairs of paths with a count (the "depinfo" and "orderinfo" files).
    PathPair,
    /// A function path with a count (the "funcinfo" file).
    Function,
    /// A call sequence, counted once per line (the "seq" file).
    CallSequence,
}

/// The separator after a record's location: a colon and three spaces.
pub open spec fn field_sep() -> Seq<char> {
    seq![':', ' ', ' ', ' ']
}

/// The separator between the columns of a record: three spaces.
pub open spec fn column_sep() -> Seq<char> {
    seq![' ', ' ', ' ']
}

/// The separator of a call-sequence record: a colon and one space.
pub open spec fn seq_sep() -> Seq<char> {
    seq![':', ' ']
}

/// The path separator that follows the crate name: `::`.
pub open spec fn path_sep() -> Seq<char> {
    seq![':', ':']
}

/// How the library name appears in records: its dashes become underscores.
pub open spec fn record_prefix(lib: Seq<char>) -> Seq<char> {
    dashes_to_underscores(lib)
}

/// A dependency or order record: after `:   `, two path columns and a count,
/// separated by three spaces; counted when the first path names the library.
pub open spec fn path_pair_line(prefix: Seq<char>, line: Seq<char>) -> LineOutcome<Seq<char>, nat> {
    if !contains_seq(line, prefix) {
        LineOutcome::Skip
    } else {
        let parts = split_seq(line, field_sep());
        if parts.len() <= 1 {
            LineOutcome::Skip
        } else {
            let cols = split_seq(parts[1], column_sep());
            if cols.len() < 2 {
                LineOutcome::Malformed
            } else {
                let pair = cols[0] + column_sep() + cols[1];
                if !starts_with_seq(pair, prefix + path_sep()) {
                    LineOutcome::Skip
                } else if cols.len() < 3 {
                    LineOutcome::Malformed
                } else {
                    match parse_usize_spec(cols[2]) {
                        Some(n) => LineOutcome::Count(pair, n),
                        None => LineOutcome::Malformed,
                    }
                }
            }
        }
    }
}

/// A function record: its third `:   `-separated field holds a function path
/// and a count separated by three spaces; counted when the path names the
/// library.
pub open spec fn function_line(prefix: Seq<char>, line: Seq<char>) -> LineOutcome<Seq<char>, nat> {
    if !contains_seq(line, prefix) {
        LineOutcome::Skip
    } else {
        let parts = split_seq(line, field_sep());
        if parts.len() <= 2 {
            LineOutcome::Skip
        } else {
            let cols = split_seq(parts[2], column_sep());
            let func = cols[0];
            if !starts_with_seq(func, prefix + path_sep()) {
                LineOutcome::Skip
            } else if cols.len() < 2 {
                LineOutcome::Malformed
            } else {
                match parse_usize_spec(cols[1]) {
                    Some(n) => LineOutcome::Count(func, n),
                    None => LineOutcome::Malformed,
                }
            }
        }
    }
}

/// A call-sequence record: the text after the first `: ` counts once.
pub open spec fn call_sequence_line(prefix: Seq<char>, line: Seq<char>) -> LineOutcome<
    Seq<char>,
    nat,
> {
    if !contains_seq(line, prefix) {
        LineOutcome::Skip
    } else {
        let parts = split_seq(line, seq_sep());
        if parts.len() <= 1 {
            LineOutcome::Skip
        } else {
            LineOutcome::Count(parts[1], 1)
        }
    }
}

/// What `line` contributes to the report of library `lib`.
pub open spec fn line_outcome(kind: RecordKind, lib: Seq<char>, line: Seq<char>) -> LineOutcome<
    Seq<char>,
    nat,
> {
    let prefix = record_prefix(lib);
    match kind {
        RecordKind::PathPair => path_pair_line(prefix, line),
        RecordKind::Function => function_line(prefix, line),
        RecordKind::CallSequence => call_sequence_line(prefix, line),
    }
}

/// The character sequences of some strings.
pub open spec fn string_views(v: Seq<String>) -> Seq<Seq<char>> {
    v.map_values(|s: String| s@)
}

/// What each line contributes.
pub open spec fn outcomes(kind: RecordKind, lib: Seq<char>, lines: Seq<Seq<char>>) -> Seq<
    LineOutcome<Seq<char>, nat>,
> {
    lines.map_values(|l: Seq<char>| line_outcome(kind, lib, l))
}

/// No line is malformed.
pub open spec fn all_well_formed(o: Seq<LineOutcome<Seq<char>, nat>>) -> bool {
    forall|i: int| 0 <= i < o.len() ==> !(#[trigger] o[i] is Malformed)
}

/// The counted records, in line order.
pub open spec fn counted(o: Seq<LineOutcome<Seq<char>, nat>>) -> Seq<Entry>
    decreases o.len(),
{
    if o.len() == 0 {
        Seq::empty()
    } else {
        match o.last() {
            LineOutcome::Count(k, n) => counted(o.drop_last()).push((k, n)),
            _ => counted(o.drop_last()),
        }
    }
}

/// The counted records of the lines of a record file.
pub open spec fn records(kind: RecordKind, lib: Seq<char>, lines: Seq<Seq<char>>) -> Seq<Entry> {
    counted(outcomes(kind, lib, lines))
}

/// Every total of the tally fits below `bound`.
pub open spec fn totals_within(s: Seq<Entry>, bound: int) -> bool {
    forall|j: int| 0 <= j < tally(s).len() ==> #[trigger] tally(s)[j].1 <= bound
}

/// The largest total a key may reach in a file of the given kind.
pub open spec fn count_bound(kind: RecordKind) -> int {
    match kind {
        RecordKind::CallSequence => i32::MAX as int,
        _ => usize::MAX as int,
    }
}

/// The records `s` overflow what the counting can hold: the running sum of
/// all counts for path pairs, a key's total for the other kinds.
pub open spec fn overflows(kind: RecordKind, s: Seq<Entry>) -> bool {
    match kind {
        RecordKind::PathPair => count_sum(s) > usize::MAX,
        _ => !totals_within(s, count_bound(kind)),
    }
}

/// Line `i` stops the run: it is malformed, or its count overflows.
pub open spec fn stops_at(kind: RecordKind, lib: Seq<char>, lines: Seq<Seq<char>>, i: int) -> bool {
    ||| outcomes(kind, lib, lines)[i] is Malformed
    ||| overflows(kind, records(kind, lib, lines.take(i + 1)))
}

/// The column separator of a report line: ` | ` between two spaces.
pub open spec fn report_bar() -> Seq<char> {
    seq![' ', ' ', '|', ' ', ' ']
}

/// Report line `i` for a path or function total.
pub open spec fn plain_report_line(i: nat, e: Entry) -> Seq<char> {
    decimal(i) + report_bar() + decimal(e.1) + report_bar() + e.0 + seq!['\n']
}

/// A highlighted label: green `name:` followed by a reset and a space.
pub open spec fn label(name: Seq<char>) -> Seq<char> {
    seq!['\x1b', '[', '9', '2', 'm'] + name + seq![':', '\x1b', '[', '0', 'm', ' ']
}

/// The number of calls in a call sequence: the space-separated pieces less one.
pub open spec fn sequence_length(s: Seq<char>) -> nat {
    (split_seq(s, seq![' ']).len() - 1) as nat
}

/// Report line `i` for a call-sequence total.
pub open spec fn sequence_report_line(i: nat, e: Entry) -> Seq<char> {
    label(seq!['i', 'd', 'x']) + decimal(i) + report_bar() + label(seq!['c', 'n', 't']) + decimal(e.1)
        + report_bar() + label(seq!['s', 'e', 'q', '_', 'l', 'e', 'n']) + decimal(
        sequence_length(e.0),
    ) + report_bar() + e.0 + seq!['\n']
}

/// Report line `i` of a file of the given kind.
pub open spec fn report_line(kind: RecordKind, i: nat, e: Entry) -> Seq<char> {
    match kind {
        RecordKind::CallSequence => sequence_report_line(i, e),
        _ => plain_report_line(i, e),
    }
}

/// The report of a file: its ranked totals, one line each, numbered from 0.
pub open spec fn report(kind: RecordKind, s: Seq<Entry>) -> Seq<Seq<char>> {
    let r = ranked(tally(s));
    Seq::new(r.len(), |i: int| report_line(kind, i as nat, r[i]))
}

fn field_sep_chars() -> (r: Vec<char>)
    ensures
        r@ == field_sep(),
{
    let r = vec![':', ' ', ' ', ' '];
    assert(r@ =~= field_sep());
    r
}

fn column_sep_chars() -> (r: Vec<char>)
    ensures
        r@ == column_sep(),
{
    let r = vec![' ', ' ', ' '];
    assert(r@ =~= column_sep());
    r
}

fn seq_sep_chars() -> (r: Vec<char>)
    ensures
        r@ == seq_sep(),
{
    let r = vec![':', ' '];
    assert(r@ =~= seq_sep());
    r
}

/// The library's record prefix followed by `::`.
fn prefix_with_path_sep(prefix: &[char]) -> (r: Vec<char>)
    ensures
        r@ == prefix@ + path_sep(),
{
    let mut r = copy_chars(prefix);
    r.push(':');
    r.push(':');
    assert(r@ =~= prefix@ + path_sep());
    r
}

fn path_pair_outcome(prefix: &[char], line: &[char]) -> (r: LineOutcome<Vec<char>, usize>)
    ensures
        r@ == path_pair_line(prefix@, line@),
{
    if !contains(line, prefix) {
        return LineOutcome::Skip;
    }
    let fs = field_sep_chars();
    let parts = split(line, &fs);
    if parts.len() <= 1 {
        return LineOutcome::Skip;
    }
    let cs = column_sep_chars();
    assert(views(parts@)[1] == parts@[1]@);
    let cols = split(&parts[1], &cs);
    if cols.len() < 2 {
        return LineOutcome::Malformed;
    }
    assert(views(cols@)[0] == cols@[0]@ && views(cols@)[1] == cols@[1]@);
    let mut pair = concat(&cols[0], &cs);
    push_all(&mut pair, &cols[1]);
    let pp = prefix_with_path_sep(prefix);
    if !starts_with(&pair, &pp) {
        return LineOutcome::Skip;
    }
    if cols.len() < 3 {
        return LineOutcome::Malformed;
    }
    assert(views(cols@)[2] == cols@[2]@);
    match parse_usize(&cols[2]) {
        Some(n) => LineOutcome::Count(pair, n),
        None => LineOutcome::Malformed,
    }
}

fn function_outcome(prefix: &[char], line: &[char]) -> (r: LineOutcome<Vec<char>, usize>)
    ensures
        r@ == function_line(prefix@, line@),
{
    if !contains(line, prefix) {
        return LineOutcome::Skip;
    }
    let fs = field_sep_chars();
    let parts = split(line, &fs);
    if parts.len() <= 2 {
        return LineOutcome::Skip;
    }
    let cs = column_sep_chars();
    assert(views(parts@)[2] == parts@[2]@);
    let cols = split(&parts[2], &cs);
    proof {
        crate::text::lemma_split_nonempty(parts@[2]@, column_sep());
    }
    assert(views(cols@)[0] == cols@[0]@);
    let pp = prefix_with_path_sep(prefix);
    if !starts_with(&cols[0], &pp) {
        return LineOutcome::Skip;
    }
    if cols.len() < 2 {
        return LineOutcome::Malformed;
    }
    assert(views(cols@)[1] == cols@[1]@);
    match parse_usize(&cols[1]) {
        Some(n) => LineOutcome::Count(copy_chars(&cols[0]), n),
        None => LineOutcome::Malformed,
    }
}

fn call_sequence_outcome(prefix: &[char], line: &[char]) -> (r: LineOutcome<Vec<char>, usize>)
    ensures
        r@ == call_sequence_line(prefix@, line@),
{
    if !contains(line, prefix) {
        return LineOutcome::Skip;
    }
    let ss = seq_sep_chars();
    let parts = split(line, &ss);
    if parts.len() <= 1 {
        return LineOutcome::Skip;
    }
    assert(views(parts@)[1] == parts@[1]@);
    LineOutcome::Count(copy_chars(&parts[1]), 1)
}

fn outcome_of(kind: RecordKind, prefix: &[char], line: &[char]) -> (r: LineOutcome<Vec<char>, usize>)
    ensures
        r@ == (match kind {
            RecordKind::PathPair => path_pair_line(prefix@, line@),
            RecordKind::Function => function_line(prefix@, line@),
            RecordKind::CallSequence => call_sequence_line(prefix@, line@),
        }),
{
    match kind {
        RecordKind::PathPair => path_pair_outcome(prefix, line),
        RecordKind::Function => function_outcome(prefix, line),
        RecordKind::CallSequence => call_sequence_outcome(prefix, line),
    }
}

/// What `line` of a record file of the given kind contributes to the report
/// of library `lib_name`.
pub fn classify_line(kind: RecordKind, lib_name: &str, line: &str) -> (r: LineOutcome<String, usize>)
    ensures
        r@ == line_outcome(kind, lib_name@, line@),
{
    let lib = chars_of(lib_name);
    let prefix = dashes_to_underscores_of(&lib);
    let l = chars_of(line);
    match outcome_of(kind, &prefix, &l) {
        LineOutcome::Skip => LineOutcome::Skip,
        LineOutcome::Count(k, n) => LineOutcome::Count(string_of(&k), n),
        LineOutcome::Malformed => LineOutcome::Malformed,
    }
}

fn report_bar_chars() -> (r: Vec<char>)
    ensures
        r@ == report_bar(),
{
    let r = vec![' ', ' ', '|', ' ', ' '];
    assert(r@ =~= report_bar());
    r
}

fn label_chars(name: &[char]) -> (r: Vec<char>)
    ensures
        r@ == label(name@),
{
    let mut r = vec!['\x1b', '[', '9', '2', 'm'];
    push_all(&mut r, name);
    let tail = vec![':', '\x1b', '[', '0', 'm', ' '];
    push_all(&mut r, &tail);
    assert(r@ =~= label(name@));
    r
}

fn report_line_of(kind: RecordKind, i: usize, key: &[char], c: usize) -> (r: String)
    ensures
        r@ == report_line(kind, i as nat, (key@, c as nat)),
{
    let bar = report_bar_chars();
    let mut v: Vec<char> = Vec::new();
    match kind {
        RecordKind::CallSequence => {
            let l = label_chars(&vec!['i', 'd', 'x']);
            push_all(&mut v, &l);
        },
        _ => {},
    }
    push_all(&mut v, &decimal_of(i));
    push_all(&mut v, &bar);
    match kind {
        RecordKind::CallSequence => {
            let l = label_chars(&vec!['c', 'n', 't']);
            push_all(&mut v, &l);
        },
        _ => {},
    }
    push_all(&mut v, &decimal_of(c));
    push_all(&mut v, &bar);
    match kind {
        RecordKind::CallSequence => {
            let l = label_chars(&vec!['s', 'e', 'q', '_', 'l', 'e', 'n']);
            push_all(&mut v, &l);
            let space = vec![' '];
            let pieces = split(key, &space);
            proof {
                crate::text::lemma_split_nonempty(key@, space@);
            }
            assert(space@ =~= seq![' ']);
            push_all(&mut v, &decimal_of(pieces.len() - 1));
            push_all(&mut v, &bar);
        },
        _ => {},
    }
    push_all(&mut v, key);
    v.push('\n');
    proof {
        match kind {
            RecordKind::CallSequence => {
                assert(v@ =~= sequence_report_line(i as nat, (key@, c as nat)));
            },
            _ => {
                assert(v@ =~= plain_report_line(i as nat, (key@, c as nat)));
            },
        }
    }
    string_of(&v)
}

/// The report lines of the ranked totals `r`.
fn render_report(kind: RecordKind, r: &Vec<(Vec<char>, usize)>) -> (lines: Vec<String>)
    ensures
        string_views(lines@) == Seq::new(
            r@.len(),
            |i: int| report_line(kind, i as nat, entry_views(r@)[i]),
        ),
{
    let mut lines: Vec<String> = Vec::new();
    let mut i: usize = 0;
    while i < r.len()
        invariant
            i <= r@.len(),
            string_views(lines@) == Seq::new(
                i as nat,
                |m: int| report_line(kind, m as nat, entry_views(r@)[m]),
            ),
        decreases r.len() - i,
    {
        let line = report_line_of(kind, i, &r[i].0, r[i].1);
        assert(entry_views(r@)[i as int] == (r@[i as int].0@, r@[i as int].1 as nat));
        let ghost prev = string_views(lines@);
        lines.push(line);
        assert(string_views(lines@) =~= prev.push(line@));
        assert(string_views(lines@) =~= Seq::new(
            (i + 1) as nat,
            |m: int| report_line(kind, m as nat, entry_views(r@)[m]),
        ));
        i = i + 1;
    }
    lines
}

/// The ranked totals of a record file, and the sum of all its counts.
struct Tallied {
    ranked: Vec<(Vec<char>, usize)>,
    total: usize,
}

/// Reads the lines of a record file of library `lib_name` in order, tallies
/// their counts per key and ranks the totals; stops with the index of the
/// first line that stops the run.
fn tally_lines(kind: RecordKind, lib_name: &str, lines: &Vec<String>) -> (r: Result<Tallied, usize>)
    ensures
        r matches Err(i) ==> i < lines@.len() && stops_at(kind, lib_name@, string_views(lines@), i as int)
            && forall|j: int| 0 <= j < i ==> !stops_at(kind, lib_name@, string_views(lines@), j),
        r matches Ok(tl) ==> (forall|j: int|
            0 <= j < lines@.len() ==> !stops_at(kind, lib_name@, string_views(lines@), j)) && entry_views(
            tl.ranked@,
        ) == ranked(tally(records(kind, lib_name@, string_views(lines@)))) && (kind
            == RecordKind::PathPair ==> tl.total == count_sum(
            records(kind, lib_name@, string_views(lines@)),
        )),
{
    let ghost lib = lib_name@;
    let ghost ls = string_views(lines@);
    let bound: usize = match kind {
        RecordKind::CallSequence => 0x7fff_ffffusize,
        _ => usize::MAX,
    };
    let libc = chars_of(lib_name);
    let prefix = dashes_to_underscores_of(&libc);
    let mut out: Vec<(Vec<char>, usize)> = Vec::new();
    let mut total: usize = 0;
    let mut i: usize = 0;
    assert(outcomes(kind, lib, ls.take(0)) =~= Seq::<LineOutcome<Seq<char>, nat>>::empty());
    assert(entry_views(out@) =~= tally(records(kind, lib, ls.take(0))));
    while i < lines.len()
        invariant
            i <= lines@.len(),
            lib == lib_name@,
            ls == string_views(lines@),
            prefix@ == record_prefix(lib),
            bound == count_bound(kind),
            entry_views(out@) == tally(records(kind, lib, ls.take(i as int))),
            keys_distinct(entry_views(out@)),
            forall|j: int| 0 <= j < out@.len() ==> #[trigger] entry_views(out@)[j].1 <= bound,
            kind == RecordKind::PathPair ==> total == count_sum(records(kind, lib, ls.take(i as int))),
            forall|j: int| 0 <= j < i ==> !stops_at(kind, lib, ls, j),
        decreases lines.len() - i,
    {
        let line = chars_of(lines[i].as_str());
        let o = outcome_of(kind, &prefix, &line);
        let ghost prev = records(kind, lib, ls.take(i as int));
        proof {
            assert(ls[i as int] == line@);
            assert(ls.take(i + 1).take(i as int) =~= ls.take(i as int));
            assert(outcomes(kind, lib, ls.take(i + 1)) =~= outcomes(kind, lib, ls.take(i as int)).push(
                line_outcome(kind, lib, line@),
            ));
            assert(outcomes(kind, lib, ls.take(i + 1)).drop_last() =~= outcomes(kind, lib, ls.take(i as int)));
            assert(outcomes(kind, lib, ls)[i as int] == line_outcome(kind, lib, line@));
            assert(totals_within(prev, count_bound(kind)));
        }
        match o {
            LineOutcome::Malformed => {
                return Err(i);
            },
            LineOutcome::Skip => {
                assert(records(kind, lib, ls.take(i + 1)) == prev);
                proof {
                    if kind == RecordKind::PathPair {
                        assert(count_sum(prev) <= usize::MAX);
                    }
                }
            },
            LineOutcome::Count(k, n) => {
                let ghost e = (k@, n as nat);
                let ghost next = records(kind, lib, ls.take(i + 1));
                assert(next == prev.push(e));
                assert(next.drop_last() =~= prev);
                assert(tally(next) == tally_add(tally(prev), e));
                if kind == RecordKind::PathPair {
                    match total.checked_add(n) {
                        Some(s) => {
                            total = s;
                        },
                        None => {
                            return Err(i);
                        },
                    }
                }
                proof {
                    lemma_tally_add_bound(entry_views(out@), e, count_bound(kind));
                    if kind == RecordKind::PathPair {
                        lemma_tally_entry_le_sum(next);
                        let u = tally(next);
                        crate::tally::lemma_tally_keys(next);
                        let kp = key_position(u, e.0);
                        if kp >= 0 && kp < u.len() {
                            assert(u[kp].1 <= count_sum(next));
                        }
                    }
                }
                let added = add_record(&mut out, &k, n, bound);
                if !added {
                    proof {
                        if kind == RecordKind::PathPair {
                            let u = tally(next);
                            crate::tally::lemma_key_position(u, e.0);
                            crate::tally::lemma_tally_keys(next);
                            assert(crate::tally::has_key(next, e.0)) by {
                                assert(next[next.len() - 1].0 == e.0);
                            }
                            lemma_tally_entry_le_sum(next);
                            assert(false);
                        }
                    }
                    return Err(i);
                }
            },
        }
        i = i + 1;
    }
    assert(ls.take(lines.len() as int) =~= ls);
    let ranked_out = rank_entries(&out);
    Ok(Tallied { ranked: ranked_out, total })
}

/// The first line of a record file that stops the run, if any.
pub open spec fn is_first_stop(kind: RecordKind, lib: Seq<char>, lines: Seq<Seq<char>>, i: int) -> bool {
    &&& 0 <= i < lines.len()
    &&& stops_at(kind, lib, lines, i)
    &&& forall|j: int| 0 <= j < i ==> !stops_at(kind, lib, lines, j)
}

/// No line of a record file stops the run.
pub open spec fn runs_through(kind: RecordKind, lib: Seq<char>, lines: Seq<Seq<char>>) -> bool {
    forall|j: int| 0 <= j < lines.len() ==> !stops_at(kind, lib, lines, j)
}

fn report_of(kind: RecordKind, lib_name: &str, lines: &Vec<String>) -> (r: Result<(Vec<String>, usize), usize>)
    ensures
        r matches Err(i) ==> is_first_stop(kind, lib_name@, string_views(lines@), i as int),
        r matches Ok((rep, total)) ==> runs_through(kind, lib_name@, string_views(lines@))
            && string_views(rep@) == report(kind, records(kind, lib_name@, string_views(lines@)))
            && (kind == RecordKind::PathPair ==> total == count_sum(
            records(kind, lib_name@, string_views(lines@)),
        )),
{
    match tally_lines(kind, lib_name, lines) {
        Err(i) => Err(i),
        Ok(tl) => {
            let rep = render_report(kind, &tl.ranked);
            assert(string_views(rep@) =~= report(kind, records(kind, lib_name@, string_views(lines@))));
            Ok((rep, tl.total))
        },
    }
}

/// The report of a dependency or order record file, with the sum of all its
/// counts.
pub struct InfoReport {
    pub total: usize,
    pub lines: Vec<String>,
}

/// Deduplicates the lines of a dependency or order record file of library
/// `lib_name`: the path pairs that start with the library's crate name are
/// tallied and ranked by total. `Err(i)`: line `i` is the first at which the
/// run stops (a malformed line, or the sum of the counts overflows).
pub fn dedup_dep_or_order_info(lib_name: &str, lines: &Vec<String>) -> (r: Result<InfoReport, usize>)
    ensures
        r matches Err(i) ==> is_first_stop(RecordKind::PathPair, lib_name@, string_views(lines@), i as int),
        r matches Ok(rep) ==> runs_through(RecordKind::PathPair, lib_name@, string_views(lines@))
            && string_views(rep.lines@) == report(
            RecordKind::PathPair,
            records(RecordKind::PathPair, lib_name@, string_views(lines@)),
        ) && rep.total == count_sum(records(RecordKind::PathPair, lib_name@, string_views(lines@))),
{
    match report_of(RecordKind::PathPair, lib_name, lines) {
        Err(i) => Err(i),
        Ok((rep, total)) => Ok(InfoReport { total, lines: rep }),
    }
}

/// Deduplicates the lines of a function record file of library `lib_name`:
/// the functions of the library are tallied and ranked by total. `Err(i)`:
/// line `i` is the first at which the run stops (a malformed line, or a
/// function's total overflows).
pub fn dedup_funcinfo(lib_name: &str, lines: &Vec<String>) -> (r: Result<Vec<String>, usize>)
    ensures
        r matches Err(i) ==> is_first_stop(RecordKind::Function, lib_name@, string_views(lines@), i as int),
        r matches Ok(rep) ==> runs_through(RecordKind::Function, lib_name@, string_views(lines@))
            && string_views(rep@) == report(
            RecordKind::Function,
            records(RecordKind::Function, lib_name@, string_views(lines@)),
        ),
{
    match report_of(RecordKind::Function, lib_name, lines) {
        Err(i) => Err(i),
        Ok((rep, _)) => Ok(rep),
    }
}

/// Deduplicates the lines of a call-sequence record file of library
/// `lib_name`: each sequence of a line that mentions the library counts once;
/// the sequences are ranked by count. `Err(i)`: at line `i` a sequence's count
/// first exceeds what an `i32` holds.
pub fn dedup_seq(lib_name: &str, lines: &Vec<String>) -> (r: Result<Vec<String>, usize>)
    ensures
        r matches Err(i) ==> is_first_stop(RecordKind::CallSequence, lib_name@, string_views(lines@), i as int),
        r matches Ok(rep) ==> runs_through(RecordKind::CallSequence, lib_name@, string_views(lines@))
            && string_views(rep@) == report(
            RecordKind::CallSequence,
            records(RecordKind::CallSequence, lib_name@, string_views(lines@)),
        ),
{
    match report_of(RecordKind::CallSequence, lib_name, lines) {
        Err(i) => Err(i),
        Ok((rep, _)) => Ok(rep),
    }
}

/// The record a line adds, as a multiset: one record for a counted line,
/// none otherwise.
pub open spec fn line_records(o: LineOutcome<Seq<char>, nat>) -> Multiset<Entry> {
    match o {
        LineOutcome::Count(k, n) => Multiset::singleton((k, n)),
        _ => Multiset::empty(),
    }
}

proof fn lemma_counted_remove(o: Seq<LineOutcome<Seq<char>, nat>>, j: int)
    requires
        0 <= j < o.len(),
    ensures
        counted(o).to_multiset() == counted(o.remove(j)).to_multiset().add(line_records(o[j])),
    decreases o.len(),
{
    broadcast use vstd::seq_lib::group_to_multiset_ensures;
    broadcast use vstd::multiset::group_multiset_axioms;

    if j == o.len() - 1 {
        assert(o.remove(j) =~= o.drop_last());
        assert(counted(o).to_multiset() =~= counted(o.drop_last()).to_multiset().add(line_records(o[j])));
    } else {
        let r = o.remove(j);
        assert(r.drop_last() =~= o.drop_last().remove(j));
        assert(r.last() == o.last());
        lemma_counted_remove(o.drop_last(), j);
        assert(counted(o).to_multiset() =~= counted(o.drop_last()).to_multiset().add(line_records(o.last())));
        assert(counted(r).to_multiset() =~= counted(r.drop_last()).to_multiset().add(line_records(r.last())));
        assert(counted(o).to_multiset() =~= counted(r).to_multiset().add(line_records(o[j])));
    }
}

proof fn lemma_records_reordered(kind: RecordKind, lib: Seq<char>, a: Seq<Seq<char>>, b: Seq<Seq<char>>)
    requires
        a.to_multiset() == b.to_multiset(),
    ensures
        same_records(records(kind, lib, a), records(kind, lib, b)),
    decreases a.len(),
{
    broadcast use vstd::seq_lib::group_to_multiset_ensures;
    broadcast use vstd::multiset::group_multiset_axioms;

    assert(a.to_multiset().len() == b.to_multiset().len());
    assert(a.len() == a.to_multiset().len());
    assert(b.len() == b.to_multiset().len());
    if a.len() == 0 {
        assert(b.len() == 0);
        assert(outcomes(kind, lib, a) =~= Seq::<LineOutcome<Seq<char>, nat>>::empty());
        assert(outcomes(kind, lib, b) =~= Seq::<LineOutcome<Seq<char>, nat>>::empty());
    } else {
        let x = a.last();
        assert(a.contains(x)) by {
            assert(a[a.len() - 1] == x);
        }
        assert(b.to_multiset().count(x) > 0);
        assert(b.contains(x));
        let j = choose|j: int| 0 <= j < b.len() && b[j] == x;
        assert(a.remove(a.len() - 1) =~= a.drop_last());
        assert(a.drop_last().to_multiset() =~= a.to_multiset().remove(x));
        assert(b.remove(j).to_multiset() =~= b.to_multiset().remove(x));
        lemma_records_reordered(kind, lib, a.drop_last(), b.remove(j));
        let oa = outcomes(kind, lib, a);
        let ob = outcomes(kind, lib, b);
        assert(outcomes(kind, lib, a.drop_last()) =~= oa.remove(oa.len() - 1));
        assert(outcomes(kind, lib, b.remove(j)) =~= ob.remove(j));
        lemma_counted_remove(oa, oa.len() - 1);
        lemma_counted_remove(ob, j);
        assert(oa[oa.len() - 1] == ob[j]);
    }
}

/// Reading the same lines in another order gives the same report rows,
/// ordered by total either way: the two reports differ at most in the order
/// of rows of equal total.
pub proof fn lemma_reordered_lines(kind: RecordKind, lib: Seq<char>, a: Seq<Seq<char>>, b: Seq<Seq<char>>)
    requires
        a.to_multiset() == b.to_multiset(),
    ensures
        ranked(tally(records(kind, lib, a))).to_multiset() == ranked(
            tally(records(kind, lib, b)),
        ).to_multiset(),
        sorted_by_count_desc(ranked(tally(records(kind, lib, a)))),
        sorted_by_count_desc(ranked(tally(records(kind, lib, b)))),
{
    lemma_records_reordered(kind, lib, a, b);
    lemma_ranked_reordered(records(kind, lib, a), records(kind, lib, b));
}

/// One more call-sequence line counting sequence `f` raises `f`'s total by
/// one, or adds `f` with total 1 after the others; every other total stays.
pub proof fn lemma_one_more_sequence(lib: Seq<char>, lines: Seq<Seq<char>>, line: Seq<char>, f: Seq<char>)
    requires
        line_outcome(RecordKind::CallSequence, lib, line) == LineOutcome::<Seq<char>, nat>::Count(f, 1),
    ensures
        ({
            let t = tally(records(RecordKind::CallSequence, lib, lines));
            let t2 = tally(records(RecordKind::CallSequence, lib, lines.push(line)));
            &&& t2 == tally_add(t, (f, 1))
            &&& has_key(t, f) ==> t2.len() == t.len() && forall|j: int|
                0 <= j < t.len() ==> #[trigger] t2[j] == (t[j].0, t[j].1 + if t[j].0 == f {
                    1nat
                } else {
                    0nat
                })
            &&& !has_key(t, f) ==> t2 == t.push((f, 1))
        }),
{
    let kind = RecordKind::CallSequence;
    let s = records(kind, lib, lines);
    let o2 = outcomes(kind, lib, lines.push(line));
    assert(o2.drop_last() =~= outcomes(kind, lib, lines));
    assert(o2.last() == LineOutcome::<Seq<char>, nat>::Count(f, 1));
    assert(records(kind, lib, lines.push(line)) == s.push((f, 1)));
    assert(s.push((f, 1)).drop_last() =~= s);
    let t = tally(s);
    lemma_tally_keys(s);
    crate::tally::lemma_key_position(t, f);
    let kp = crate::tally::key_position(t, f);
    if kp >= 0 {
        let t2 = tally_add(t, (f, 1));
        assert forall|j: int| 0 <= j < t.len() implies #[trigger] t2[j] == (t[j].0, t[j].1 + if t[j].0 == f {
            1nat
        } else {
            0nat
        }) by {
            if j != kp {
                assert(t[j].0 != t[kp].0);
            }
        }
    }
}

/// `k` is an item path of library `lib`: it begins with the library's name,
/// its dashes written as underscores, and then `::`.
pub open spec fn is_library_item(lib: Seq<char>, k: Seq<char>) -> bool {
    &&& k.len() >= lib.len() + 2
    &&& forall|j: int| 0 <= j < lib.len() ==> k[j] == (if lib[j] == '-' { '_' } else { lib[j] })
    &&& k[lib.len() as int] == ':'
    &&& k[lib.len() as int + 1] == ':'
}

/// A path-pair or function line counts only an item path of the library.
pub proof fn lemma_counted_key_is_library_item(kind: RecordKind, lib: Seq<char>, line: Seq<char>)
    requires
        kind != RecordKind::CallSequence,
        line_outcome(kind, lib, line) is Count,
    ensures
        is_library_item(lib, line_outcome(kind, lib, line)->Count_0),
{
    let k = line_outcome(kind, lib, line)->Count_0;
    let p = record_prefix(lib) + path_sep();
    assert(starts_with_seq(k, p));
    assert(k.subrange(0, p.len() as int) == p);
    assert forall|j: int| 0 <= j < lib.len() implies k[j] == (if lib[j] == '-' { '_' } else { lib[j] }) by {
        assert(k[j] == k.subrange(0, p.len() as int)[j]);
        assert(p[j] == record_prefix(lib)[j]);
    }
    assert(k[lib.len() as int] == k.subrange(0, p.len() as int)[lib.len() as int]);
    assert(k[lib.len() as int + 1] == k.subrange(0, p.len() as int)[lib.len() as int + 1]);
}

proof fn lemma_records_are_library_items(kind: RecordKind, lib: Seq<char>, lines: Seq<Seq<char>>)
    requires
        kind != RecordKind::CallSequence,
    ensures
        forall|i: int|
            0 <= i < records(kind, lib, lines).len() ==> is_library_item(
                lib,
                #[trigger] records(kind, lib, lines)[i].0,
            ),
    decreases lines.len(),
{
    if lines.len() > 0 {
        let o = outcomes(kind, lib, lines);
        assert(o.drop_last() =~= outcomes(kind, lib, lines.drop_last()));
        lemma_records_are_library_items(kind, lib, lines.drop_last());
        let prev = records(kind, lib, lines.drop_last());
        if o.last() is Count {
            lemma_counted_key_is_library_item(kind, lib, lines.last());
            assert forall|i: int| 0 <= i < records(kind, lib, lines).len() implies is_library_item(
                lib,
                #[trigger] records(kind, lib, lines)[i].0,
            ) by {
                if i < prev.len() {
                    assert(records(kind, lib, lines)[i] == prev[i]);
                }
            }
        }
    }
}

/// Every key of a ranking of `tally(s)` is the key of some record of `s`.
proof fn lemma_ranked_key_has_record(s: Seq<Entry>, i: int)
    requires
        0 <= i < ranked(tally(s)).len(),
    ensures
        exists|m: int| 0 <= m < s.len() && s[m].0 == ranked(tally(s))[i].0,
{
    broadcast use vstd::seq_lib::group_to_multiset_ensures;

    let t = tally(s);
    let r = ranked(t);
    lemma_ranked_permutation(t);
    lemma_tally_keys(s);
    assert(r.contains(r[i]));
    assert(r.to_multiset().count(r[i]) > 0);
    assert(t.contains(r[i]));
    let j = choose|j: int| 0 <= j < t.len() && t[j] == r[i];
    assert(has_key(t, r[i].0));
    assert(has_key(s, r[i].0));
}

/// Every row of a dependency, order or function report names an item of the
/// library: another crate whose name merely starts with the library's name
/// (`serde_json` for `serde`) never appears.
pub proof fn lemma_report_rows_are_library_items(kind: RecordKind, lib: Seq<char>, lines: Seq<Seq<char>>)
    requires
        kind != RecordKind::CallSequence,
    ensures
        forall|i: int|
            0 <= i < ranked(tally(records(kind, lib, lines))).len() ==> is_library_item(
                lib,
                #[trigger] ranked(tally(records(kind, lib, lines)))[i].0,
            ),
{
    let s = records(kind, lib, lines);
    lemma_records_are_library_items(kind, lib, lines);
    assert forall|i: int| 0 <= i < ranked(tally(s)).len() implies is_library_item(
        lib,
        #[trigger] ranked(tally(s))[i].0,
    ) by {
        lemma_ranked_key_has_record(s, i);
        let m = choose|m: int| 0 <= m < s.len() && s[m].0 == ranked(tally(s))[i].0;
        assert(is_library_item(lib, s[m].0));
    }
}

/// The number of spaces in `s`.
pub open spec fn space_count(s: Seq<char>) -> nat
    decreases s.len(),
{
    if s.len() == 0 {
        0
    } else {
        space_count(s.drop_last()) + if s.last() == ' ' { 1nat } else { 0nat }
    }
}

proof fn lemma_space_count_first(s: Seq<char>)
    requires
        s.len() > 0,
    ensures
        space_count(s) == space_count(s.skip(1)) + if s[0] == ' ' { 1nat } else { 0nat },
    decreases s.len(),
{
    if s.len() == 1 {
        assert(s.skip(1) =~= Seq::<char>::empty());
        assert(s.drop_last() =~= Seq::<char>::empty());
    } else {
        lemma_space_count_first(s.drop_last());
        assert(s.drop_last().skip(1) =~= s.skip(1).drop_last());
        assert(s.skip(1).last() == s.last());
    }
}

/// The number of calls in a sequence, less one, is its number of spaces:
/// what the calls' paths hold does not matter.
pub proof fn lemma_sequence_length_counts_spaces(s: Seq<char>)
    ensures
        sequence_length(s) == space_count(s),
    decreases s.len(),
{
    let sep = seq![' '];
    crate::text::lemma_split_nonempty(s, sep);
    if s.len() >= 1 {
        lemma_sequence_length_counts_spaces(s.skip(1));
        crate::text::lemma_split_nonempty(s.skip(1), sep);
        lemma_space_count_first(s);
        if s.take(1) == sep {
            assert(s[0] == ' ') by {
                assert(s.take(1)[0] == s[0]);
            }
        } else {
            assert(s[0] != ' ') by {
                if s[0] == ' ' {
                    assert(s.take(1) =~= sep);
                }
            }
        }
    } else {
        assert(split_seq(s, sep) == seq![s]);
    }
}

/// Each row of a call-sequence report shows, after its index and count, the
/// number of spaces in the sequence as its length.
pub proof fn lemma_sequence_report_rows(lib: Seq<char>, lines: Seq<Seq<char>>)
    ensures
        ({
            let r = ranked(tally(records(RecordKind::CallSequence, lib, lines)));
            let rep = report(RecordKind::CallSequence, records(RecordKind::CallSequence, lib, lines));
            &&& rep.len() == r.len()
            &&& forall|i: int|
                0 <= i < r.len() ==> #[trigger] rep[i] == label(seq!['i', 'd', 'x']) + decimal(i as nat)
                    + report_bar() + label(seq!['c', 'n', 't']) + decimal(r[i].1) + report_bar() + label(
                    seq!['s', 'e', 'q', '_', 'l', 'e', 'n'],
                ) + decimal(space_count(r[i].0)) + report_bar() + r[i].0 + seq!['\n']
        }),
{
    let r = ranked(tally(records(RecordKind::CallSequence, lib, lines)));
    assert forall|i: int| 0 <= i < r.len() implies sequence_length(#[trigger] r[i].0) == space_count(r[i].0) by {
        lemma_sequence_length_counts_spaces(r[i].0);
    }
}

} // verus!
