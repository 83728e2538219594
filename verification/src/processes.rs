//! Running processes that look like interpreted scripts.
use vstd::prelude::*;
use crate::text::{contains, to_owned, push_str, has_substring, join, strs};

verus! {

/// What the audit reads of a running process.
pub struct ProcessInfo {
    /// The process id.
    pub pid: i32,
    /// The path of the executable, when it could be read.
    pub exe_path: Option<Vec<u8>>,
    /// The path of each memory mapping backed by a file (`None` for the
    /// others), when the mappings could be read.
    pub map_paths: Option<Vec<Option<Vec<u8>>>>,
}

/// The abstract value of a process record.
pub struct ProcessView {
    pub pid: i32,
    pub exe_path: Option<Seq<u8>>,
    pub map_paths: Option<Seq<Option<Seq<u8>>>>,
}

/// The bytes of an optional byte vector.
pub open spec fn opt_bytes(o: Option<Vec<u8>>) -> Option<Seq<u8>> {
    match o {
        Some(v) => Some(v@),
        None => None,
    }
}

impl View for ProcessInfo {
    type V = ProcessView;

    open spec fn view(&self) -> ProcessView {
        ProcessView {
            pid: self.pid,
            exe_path: opt_bytes(self.exe_path),
            map_paths: match self.map_paths {
                Some(ms) => Some(ms@.map_values(|m: Option<Vec<u8>>| opt_bytes(m))),
                None => None,
            },
        }
    }
}

/// The text of some bytes when they are UTF-8.
pub open spec fn utf8_text(b: Seq<u8>) -> Option<Seq<char>> {
    if vstd::utf8::valid_utf8(b) {
        Some(vstd::utf8::decode_utf8(b))
    } else {
        None
    }
}

/// The name of an executable: the file name of its path, when it is UTF-8.
pub open spec fn exe_name(exe_path: Option<Seq<u8>>) -> Option<Seq<char>> {
    match exe_path {
        Some(path) => match crate::paths::file_name_of(path) {
            Some(n) => utf8_text(n),
            None => None,
        },
        None => None,
    }
}

/// An executable whose name mentions `python` or `bash`.
pub open spec fn exe_suggests_script(exe_path: Option<Seq<u8>>) -> bool {
    match exe_name(exe_path) {
        Some(n) => contains(n, "python"@) || contains(n, "bash"@),
        None => false,
    }
}

/// A mapping whose path (read as UTF-8, else as empty) mentions `python`.
pub open spec fn maps_python(m: Option<Seq<u8>>) -> bool {
    match m {
        Some(path) => match utf8_text(path) {
            Some(t) => contains(t, "python"@),
            None => false,
        },
        None => false,
    }
}

/// A process that may be running a script: its executable's name mentions
/// `python` or `bash`, or one of its mappings is a `python` file.
pub open spec fn is_potential_script(p: ProcessView) -> bool {
    let exe_hit = exe_suggests_script(p.exe_path);
    let maps_hit = match p.map_paths {
        Some(ms) => exists|j: int| 0 <= j < ms.len() && maps_python(#[trigger] ms[j]),
        None => false,
    };
    exe_hit || maps_hit
}

/// The positions of the potential script processes among the first `n`, in order.
pub open spec fn script_positions(ps: Seq<ProcessView>, n: int) -> Seq<usize>
    decreases n,
{
    if n <= 0 {
        Seq::<usize>::empty()
    } else if is_potential_script(ps[n - 1]) {
        script_positions(ps, n - 1).push((n - 1) as usize)
    } else {
        script_positions(ps, n - 1)
    }
}

/// The reported positions are in range and strictly increasing, so no
/// process is reported twice.
pub proof fn law_positions_increase(ps: Seq<ProcessView>, n: int)
    requires
        0 <= n <= ps.len() <= usize::MAX,
    ensures
        forall|i: int| 0 <= i < script_positions(ps, n).len() ==> #[trigger] script_positions(ps, n)[i] < n,
        forall|i: int, j: int|
            0 <= i < j < script_positions(ps, n).len() ==> script_positions(ps, n)[i]
                < script_positions(ps, n)[j],
        forall|i: int|
            0 <= i < script_positions(ps, n).len() ==> is_potential_script(
                ps[#[trigger] script_positions(ps, n)[i] as int],
            ),
    decreases n,
{
    if n > 0 {
        law_positions_increase(ps, n - 1);
        let prev = script_positions(ps, n - 1);
        let cur = script_positions(ps, n);
        if is_potential_script(ps[n - 1]) {
            assert(cur == prev.push((n - 1) as usize));
            assert forall|i: int| 0 <= i < cur.len() implies #[trigger] cur[i] < n by {
                if i < prev.len() {
                    assert(cur[i] == prev[i]);
                }
            }
            assert(((n - 1) as usize) as int == n - 1);
            assert forall|i: int, j: int| 0 <= i < j < cur.len() implies cur[i] < cur[j] by {
                assert(cur[i] == prev[i]);
                assert(prev[i] < n - 1);
                if j < prev.len() {
                    assert(cur[j] == prev[j]);
                }
            }
            assert forall|i: int| 0 <= i < cur.len() implies is_potential_script(
                ps[#[trigger] cur[i] as int],
            ) by {
                if i < prev.len() {
                    assert(cur[i] == prev[i]);
                }
            }
        }
    }
}

/// Whether some bytes are UTF-8 text containing `needle`.
fn utf8_contains(b: &[u8], needle: &str) -> (res: bool)
    ensures
        res == (match utf8_text(b@) {
            Some(t) => contains(t, needle@),
            None => false,
        }),
{
    match crate::text::utf8_str(b) {
        Some(t) => has_substring(t, needle),
        None => false,
    }
}

/// Whether the name of a process's executable mentions `python` or `bash`;
/// when it does, the process is reported whatever its mappings are, so they
/// need not be read.
pub fn executable_suggests_script(exe_path: &Option<Vec<u8>>) -> (res: bool)
    ensures
        res == exe_suggests_script(opt_bytes(*exe_path)),
{
    if let Some(exe) = exe_path {
        if let Some(n) = crate::paths::file_name(exe.as_slice()) {
            return utf8_contains(n.as_slice(), "python") || utf8_contains(n.as_slice(), "bash");
        }
    }
    false
}

/// A process whose executable suggests a script is reported whatever is
/// known of its mappings.
pub proof fn law_executable_decides(p: ProcessView, maps: Option<Seq<Option<Seq<u8>>>>)
    requires
        exe_suggests_script(p.exe_path),
    ensures
        is_potential_script(p),
        is_potential_script(ProcessView { pid: p.pid, exe_path: p.exe_path, map_paths: maps }),
{
}

/// Whether a process may be running a script.
fn potential_script(p: &ProcessInfo) -> (res: bool)
    ensures
        res == is_potential_script(p@),
{
    if executable_suggests_script(&p.exe_path) {
        return true;
    }
    match &p.map_paths {
        None => false,
        Some(ms) => {
            let ghost mv = ms@.map_values(|m: Option<Vec<u8>>| opt_bytes(m));
            assert(p@.map_paths == Some(mv));
            let mut j: usize = 0;
            while j < ms.len()
                invariant
                    j <= ms.len(),
                    p@.map_paths == Some(mv),
                    mv == ms@.map_values(|m: Option<Vec<u8>>| opt_bytes(m)),
                    forall|i: int| 0 <= i < j ==> !maps_python(#[trigger] mv[i]),
                decreases ms.len() - j,
            {
                if let Some(path) = &ms[j] {
                    if utf8_contains(path.as_slice(), "python") {
                        assert(maps_python(mv[j as int]));
                        assert(j < mv.len());
                        assert(exists|i: int| 0 <= i < mv.len() && maps_python(#[trigger] mv[i]));
                        assert(p@.map_paths == Some(mv));
                        assert(p@.map_paths.unwrap() == mv);
                        assert(is_potential_script(p@));
                        return true;
                    }
                }
                assert(!maps_python(mv[j as int]));
                j += 1;
            }
            false
        },
    }
}

/// The processes that may be running scripts (positions in `processes`, in
/// order): those whose executable's name mentions `python` or `bash`, and
/// those that map a file whose path mentions `python`.
pub fn check(processes: &Vec<ProcessInfo>) -> (res: Vec<usize>)
    ensures
        res@ == script_positions(processes@.map_values(|p: ProcessInfo| p@), processes.len() as int),
{
    let ghost ps = processes@.map_values(|p: ProcessInfo| p@);
    let mut res: Vec<usize> = Vec::new();
    let mut i: usize = 0;
    while i < processes.len()
        invariant
            i <= processes.len(),
            ps == processes@.map_values(|p: ProcessInfo| p@),
            res@ == script_positions(ps, i as int),
        decreases processes.len() - i,
    {
        if potential_script(&processes[i]) {
            res.push(i);
        }
        i += 1;
    }
    res
}

/// The heading of a potential script process, in red.
pub fn script_heading() -> (res: String)
    ensures
        res@ == crate::color::red_text("Found potential script process:"@),
{
    crate::color::red("Found potential script process:")
}

/// The report line with a process id: `"  PID: <pid>"`.
pub fn pid_line(pid: i32) -> (res: String)
    ensures
        res@ == "  PID: "@ + crate::text::signed_decimal(pid as int),
{
    let mut s = to_owned("  PID: ");
    let d = crate::text::i64_decimal(pid as i64);
    push_str(&mut s, d.as_str());
    s
}

/// The report line with a command line: `"  Command: "` and the arguments
/// joined by spaces.
pub fn command_line(args: &Vec<String>) -> (res: String)
    ensures
        res@ == "  Command: "@ + join(strs(args@), " "@),
{
    let mut s = to_owned("  Command: ");
    let j = crate::text::join_strings(args, " ");
    push_str(&mut s, j.as_str());
    s
}

/// The report line for an ancestor: `"  Parent: <pid> - <command line>"`.
pub fn parent_line(pid: i32, args: &Vec<String>) -> (res: String)
    ensures
        res@ == "  Parent: "@ + crate::text::signed_decimal(pid as int) + " - "@ + join(
            strs(args@),
            " "@,
        ),
{
    let mut s = to_owned("  Parent: ");
    let d = crate::text::i64_decimal(pid as i64);
    push_str(&mut s, d.as_str());
    push_str(&mut s, " - ");
    let j = crate::text::join_strings(args, " ");
    push_str(&mut s, j.as_str());
    s
}

} // verus!

verus! {

/// The reported positions among the first `n` are exactly those of the
/// potential script processes.
proof fn lemma_positions_are_scripts(ps: Seq<ProcessView>, n: int, i: int)
    requires
        0 <= i < n <= ps.len() <= usize::MAX,
    ensures
        script_positions(ps, n).contains(i as usize) <==> is_potential_script(ps[i]),
    decreases n,
{
    law_positions_increase(ps, n);
    let cur = script_positions(ps, n);
    let prev = script_positions(ps, n - 1);
    if i < n - 1 {
        lemma_positions_are_scripts(ps, n - 1, i);
        law_positions_increase(ps, n - 1);
        if is_potential_script(ps[n - 1]) {
            assert(cur == prev.push((n - 1) as usize));
            if prev.contains(i as usize) {
                let m = choose|m: int| 0 <= m < prev.len() && prev[m] == i as usize;
                assert(cur[m] == i as usize);
            }
            if cur.contains(i as usize) {
                let m = choose|m: int| 0 <= m < cur.len() && cur[m] == i as usize;
                if m < prev.len() {
                    assert(prev[m] == i as usize);
                } else {
                    assert(cur[m] == (n - 1) as usize);
                }
            }
        }
    } else {
        law_positions_increase(ps, n - 1);
        if is_potential_script(ps[n - 1]) {
            assert(cur == prev.push((n - 1) as usize));
            assert(cur[cur.len() - 1] == i as usize);
        } else {
            if cur.contains(i as usize) {
                let m = choose|m: int| 0 <= m < cur.len() && cur[m] == i as usize;
                assert(prev[m] < n - 1);
            }
        }
    }
}

/// A process is reported exactly when the file name of its executable is
/// UTF-8 text mentioning `python` or `bash`, or one of its mapped files has a
/// UTF-8 path mentioning `python`; each of the two suffices whatever the
/// other part of the record holds.
pub proof fn law_reported_processes(ps: Seq<ProcessView>, n: int, i: int)
    requires
        0 <= i < n <= ps.len() <= usize::MAX,
    ensures
        script_positions(ps, n).contains(i as usize) <==> ({
            ||| match ps[i].exe_path {
                Some(path) => match crate::paths::file_name_of(path) {
                    Some(name) => vstd::utf8::valid_utf8(name) && (contains(
                        vstd::utf8::decode_utf8(name),
                        "python"@,
                    ) || contains(vstd::utf8::decode_utf8(name), "bash"@)),
                    None => false,
                },
                None => false,
            }
            ||| match ps[i].map_paths {
                Some(ms) => exists|j: int|
                    #![trigger ms[j]]
                    0 <= j < ms.len() && ms[j] is Some && vstd::utf8::valid_utf8(ms[j]->0)
                        && contains(vstd::utf8::decode_utf8(ms[j]->0), "python"@),
                None => false,
            }
        }),
{
    lemma_positions_are_scripts(ps, n, i);
    let p = ps[i];
    match p.map_paths {
        Some(ms) => {
            assert forall|j: int| 0 <= j < ms.len() implies maps_python(#[trigger] ms[j]) == (
            ms[j] is Some && vstd::utf8::valid_utf8(ms[j]->0) && contains(
                vstd::utf8::decode_utf8(ms[j]->0),
                "python"@,
            )) by {}
        },
        None => {},
    }
}

} // verus!
