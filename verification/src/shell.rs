//! Where the bundled audit tools are unpacked and run from.
use vstd::prelude::*;
use crate::text::{strs, split_on, join, split, to_owned, push_str, join_strings, signed_decimal};

verus! {

/// The directory part of a relative script path: every `'/'`-separated
/// component but the last, joined again.
pub open spec fn script_dir_of(script_name: Seq<char>) -> Seq<char> {
    let parts = split_on(script_name, '/');
    join(parts.drop_last(), "/"@)
}

/// The directory part of a relative script path (`"lynis/lynis"` gives `"lynis"`).
pub fn script_dir(script_name: &str) -> (res: String)
    ensures
        res@ == script_dir_of(script_name@),
{
    let mut parts = split(script_name, '/');
    proof {
        crate::text::lemma_split_on_nonempty(script_name@, '/');
    }
    let ghost all = strs(parts@);
    parts.pop();
    assert(strs(parts@) =~= all.drop_last());
    join_strings(&parts, "/")
}

/// A script path with a directory part is that directory, a `'/'`, and the
/// script's own name (the last component).
pub proof fn law_script_dir_then_name(script_name: Seq<char>)
    requires
        split_on(script_name, '/').len() >= 2,
    ensures
        script_dir_of(script_name) + "/"@ + split_on(script_name, '/').last() == script_name,
{
    crate::text::law_split_then_join(script_name, '/');
    reveal_strlit("/");
    assert("/"@ =~= seq!['/']);
}

/// Where a script is written before it runs: `/tmp/<name>`.
pub fn script_path(name: &str) -> (res: String)
    ensures
        res@ == "/tmp/"@ + name@,
{
    let mut s = to_owned("/tmp/");
    push_str(&mut s, name);
    s
}

/// The places a bundled tool archive is unpacked to and run from.
pub struct TarLayout {
    /// `/tmp/<tar name>`, the directory the archive is unpacked in.
    pub directory: String,
    /// `<directory>/<tar name>.tar`, the archive itself.
    pub archive: String,
    /// `<directory>/<script name>`, the script to run.
    pub script: String,
    /// `<directory>/<script dir>`, the working directory of the script.
    pub working_dir: String,
}

/// The layout for a tool archive `tar_name` whose script is `script_name`.
pub fn tar_layout(tar_name: &str, script_name: &str) -> (res: TarLayout)
    ensures
        res.directory@ == "/tmp/"@ + tar_name@,
        res.archive@ == "/tmp/"@ + tar_name@ + "/"@ + tar_name@ + ".tar"@,
        res.script@ == "/tmp/"@ + tar_name@ + "/"@ + script_name@,
        res.working_dir@ == "/tmp/"@ + tar_name@ + "/"@ + script_dir_of(script_name@),
{
    let directory = script_path(tar_name);
    let mut archive = to_owned(directory.as_str());
    push_str(&mut archive, "/");
    push_str(&mut archive, tar_name);
    push_str(&mut archive, ".tar");
    let mut script = to_owned(directory.as_str());
    push_str(&mut script, "/");
    push_str(&mut script, script_name);
    let mut working_dir = to_owned(directory.as_str());
    push_str(&mut working_dir, "/");
    let d = script_dir(script_name);
    push_str(&mut working_dir, d.as_str());
    TarLayout { directory, archive, script, working_dir }
}

/// The path through which a process reaches one of its own file
/// descriptors: `/proc/self/fd/<fd>`.
pub fn fd_path(fd: i32) -> (res: String)
    ensures
        res@ == "/proc/self/fd/"@ + signed_decimal(fd as int),
{
    let mut s = to_owned("/proc/self/fd/");
    let d = crate::text::i64_decimal(fd as i64);
    push_str(&mut s, d.as_str());
    s
}

} // verus!
