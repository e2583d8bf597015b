//! Where the tool keeps its files: paths under the experiment root, joined
//! as `PathBuf::join` joins them on Unix, and the names of the record files.
use vstd::prelude::*;
use crate::text::{chars_of, decimal, decimal_of, push_all, string_of};

verus! {

/// The directory under which every library has its experiment directory.
pub const EXPERIMENT_ROOT_PATH: &'static str = "/home/yxz/workspace/fuzz/experiment_root/";

/// `base` joined with `part`: an absolute `part` replaces `base`; otherwise a
/// `/` goes between them unless `base` is empty or already ends with one.
pub open spec fn path_join(base: Seq<char>, part: Seq<char>) -> Seq<char> {
    if part.len() > 0 && part[0] == '/' {
        part
    } else if base.len() == 0 || base.last() == '/' {
        base + part
    } else {
        base + seq!['/'] + part
    }
}

/// Joins `part` to `base`.
pub fn join_path(base: &str, part: &str) -> (r: String)
    ensures
        r@ == path_join(base@, part@),
{
    let b = chars_of(base);
    let p = chars_of(part);
    if p.len() > 0 && p[0] == '/' {
        return string_of(&p);
    }
    let mut v = b;
    if v.len() > 0 && v[v.len() - 1] != '/' {
        v.push('/');
    }
    push_all(&mut v, &p);
    assert(v@ =~= path_join(base@, part@));
    string_of(&v)
}

/// The experiment directory of library `lib`.
pub open spec fn library_dir(lib: Seq<char>) -> Seq<char> {
    path_join(EXPERIMENT_ROOT_PATH@, lib)
}

/// The directory that holds the cloned dependents of library `lib`.
pub open spec fn dependents_dir(lib: Seq<char>) -> Seq<char> {
    path_join(library_dir(lib), "dependents"@)
}

/// The directory that holds the cloned dependents of library `lib`.
pub fn get_dependents_dir_path(lib: &str) -> (r: String)
    ensures
        r@ == dependents_dir(lib@),
{
    let d = join_path(EXPERIMENT_ROOT_PATH, lib);
    join_path(d.as_str(), "dependents")
}

/// The file `name` in the experiment directory of library `lib`.
pub fn library_file_path(lib: &str, name: &str) -> (r: String)
    ensures
        r@ == path_join(library_dir(lib@), name@),
{
    let d = join_path(EXPERIMENT_ROOT_PATH, lib);
    join_path(d.as_str(), name)
}

/// The directory into which dependent number `num` of library `lib` is
/// cloned: `<lib>_dependent<num>` in the dependents directory.
pub open spec fn clone_target_dir(lib: Seq<char>, num: nat) -> Seq<char> {
    path_join(dependents_dir(lib), lib + "_dependent"@ + decimal(num))
}

/// The directory into which dependent number `num` of library `lib` is cloned.
pub fn clone_target_path(lib: &str, num: u32) -> (r: String)
    ensures
        r@ == clone_target_dir(lib@, num as nat),
{
    let dir = get_dependents_dir_path(lib);
    let mut name = chars_of(lib);
    let suffix = chars_of("_dependent");
    push_all(&mut name, &suffix);
    push_all(&mut name, &decimal_of(num as usize));
    let name_s = string_of(&name);
    join_path(dir.as_str(), name_s.as_str())
}

/// The record files of a library's analysis.
#[derive(Clone, Copy, PartialEq, Eq, Structural, Debug)]
pub enum RecordFile {
    DepInfo,
    OrderInfo,
    FuncInfo,
    CallSeq,
}

/// The name of a record file in the library's experiment directory.
pub open spec fn record_file_name(f: RecordFile) -> Seq<char> {
    match f {
        RecordFile::DepInfo => "depinfo"@,
        RecordFile::OrderInfo => "orderinfo"@,
        RecordFile::FuncInfo => "funcinfo"@,
        RecordFile::CallSeq => "seq"@,
    }
}

/// The name of the report written for a record file.
pub open spec fn report_file_name(f: RecordFile) -> Seq<char> {
    match f {
        RecordFile::DepInfo => "depinfo.txt"@,
        RecordFile::OrderInfo => "orderinfo.txt"@,
        RecordFile::FuncInfo => "funcinfo.txt"@,
        RecordFile::CallSeq => "seq-dedup.ans"@,
    }
}

impl RecordFile {
    /// The file's name.
    pub fn name(&self) -> (r: &'static str)
        ensures
            r@ == record_file_name(*self),
    {
        match self {
            RecordFile::DepInfo => "depinfo",
            RecordFile::OrderInfo => "orderinfo",
            RecordFile::FuncInfo => "funcinfo",
            RecordFile::CallSeq => "seq",
        }
    }

    /// Where the record file of library `lib` is read from.
    pub fn input_path(&self, lib: &str) -> (r: String)
        ensures
            r@ == path_join(library_dir(lib@), record_file_name(*self)),
    {
        library_file_path(lib, self.name())
    }

    /// Where the report of the record file of library `lib` is written.
    pub fn report_path(&self, lib: &str) -> (r: String)
        ensures
            r@ == path_join(library_dir(lib@), report_file_name(*self)),
    {
        let name = match self {
            RecordFile::DepInfo => "depinfo.txt",
            RecordFile::OrderInfo => "orderinfo.txt",
            RecordFile::FuncInfo => "funcinfo.txt",
            RecordFile::CallSeq => "seq-dedup.ans",
        };
        library_file_path(lib, name)
    }
}

} // verus!
