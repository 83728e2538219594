//! Showing configuration files and directories in the audit report.
use vstd::prelude::*;
use crate::text::{strs, join, trim, repeat, to_owned, push_str, join_strings, trim_str, repeat_str};
use crate::color::yellow_text;

verus! {

/// How a file's heading names it.
#[derive(Debug, Clone, Copy, PartialEq, Eq, Structural)]
pub enum PrintName {
    /// By its whole path.
    Full,
    /// By its file name.
    End,
    /// No heading.
    No,
}

/// What can go wrong naming a file.
#[derive(Debug, Clone, Copy, PartialEq, Eq, Structural)]
pub enum FilesError {
    /// The path has no file name.
    MissingFileName,
    /// The file name is not UTF-8.
    NonUtf8FileName,
}

/// The name that a heading gives a file.
pub open spec fn heading_name(print_name: PrintName, display: Seq<char>, path: Seq<u8>) -> Result<
    Seq<char>,
    FilesError,
> {
    match print_name {
        PrintName::End => match crate::paths::file_name_of(path) {
            None => Err(FilesError::MissingFileName),
            Some(n) => if vstd::utf8::valid_utf8(n) {
                Ok(vstd::utf8::decode_utf8(n))
            } else {
                Err(FilesError::NonUtf8FileName)
            },
        },
        _ => Ok(display),
    }
}

/// A file's heading: indented four spaces per level, a yellow `File:`, the
/// name, and a yellow `(empty)` for a file with nothing but whitespace.
pub open spec fn heading(indent: nat, name: Seq<char>, is_empty: bool) -> Seq<char> {
    repeat("    "@, indent) + yellow_text("File:"@) + " "@ + name + " "@ + yellow_text(
        if is_empty {
            "(empty)"@
        } else {
            ""@
        },
    )
}

/// The lines that show a file with the given lines of text: the heading
/// (unless there is none) and then the text joined by newlines (unless it
/// is only whitespace); or the error in naming the file.
pub open spec fn file_section_of(
    print_name: PrintName,
    display: Seq<char>,
    path: Seq<u8>,
    indent: nat,
    lines: Seq<Seq<char>>,
) -> Result<Seq<Seq<char>>, FilesError> {
    let text = join(lines, "\n"@);
    let is_empty = trim(text).len() == 0;
    let body = if is_empty {
        Seq::<Seq<char>>::empty()
    } else {
        seq![text]
    };
    if print_name == PrintName::No {
        Ok(body)
    } else {
        match heading_name(print_name, display, path) {
            Err(e) => Err(e),
            Ok(name) => Ok(seq![heading(indent, name, is_empty)] + body),
        }
    }
}

/// The name of a file in a heading.
fn name_for(print_name: PrintName, display: &str, path: &[u8]) -> (res: Result<String, FilesError>)
    ensures
        match heading_name(print_name, display@, path@) {
            Ok(n) => res matches Ok(s) && s@ == n,
            Err(e) => res == Err::<String, FilesError>(e),
        },
{
    match print_name {
        PrintName::End => match crate::paths::file_name(path) {
            None => Err(FilesError::MissingFileName),
            Some(n) => match crate::text::utf8_str(n.as_slice()) {
                Some(t) => Ok(to_owned(t)),
                None => Err(FilesError::NonUtf8FileName),
            },
        },
        _ => Ok(to_owned(display)),
    }
}

/// The report lines that show a file whose lines have been read.
pub fn file_section(
    path_display: &str,
    path: &[u8],
    print_name: PrintName,
    indent: usize,
    lines: &Vec<String>,
) -> (res: Result<Vec<String>, FilesError>)
    ensures
        match file_section_of(print_name, path_display@, path@, indent as nat, strs(lines@)) {
            Ok(ls) => res matches Ok(v) && strs(v@) == ls,
            Err(e) => res == Err::<Vec<String>, FilesError>(e),
        },
{
    let text = join_strings(lines, "\n");
    let trimmed = trim_str(text.as_str());
    let is_empty = trimmed.as_str().is_empty();
    let mut out: Vec<String> = Vec::new();
    if print_name != PrintName::No {
        let name = match name_for(print_name, path_display, path) {
            Ok(n) => n,
            Err(e) => {
                return Err(e);
            },
        };
        let mut h = repeat_str("    ", indent);
        let label = crate::color::yellow("File:");
        push_str(&mut h, label.as_str());
        push_str(&mut h, " ");
        push_str(&mut h, name.as_str());
        push_str(&mut h, " ");
        let mark = if is_empty {
            crate::color::yellow("(empty)")
        } else {
            crate::color::yellow("")
        };
        push_str(&mut h, mark.as_str());
        out.push(h);
    }
    let ghost before = strs(out@);
    if !is_empty {
        let ghost t = text@;
        out.push(text);
        assert(strs(out@) =~= before.push(t));
    }
    assert(strs(out@) =~= file_section_of(
        print_name,
        path_display@,
        path@,
        indent as nat,
        strs(lines@),
    ).unwrap());
    Ok(out)
}

/// The heading of a directory: a blank line, a yellow `Directory:` and the path.
pub fn directory_heading(display: &str) -> (res: String)
    ensures
        res@ == "\n"@ + yellow_text("Directory:"@) + " "@ + display@,
{
    let mut s = to_owned("\n");
    let label = crate::color::yellow("Directory:");
    push_str(&mut s, label.as_str());
    push_str(&mut s, " ");
    push_str(&mut s, display);
    s
}

/// The line for an empty directory, indented, in yellow.
pub fn empty_directory_line() -> (res: String)
    ensures
        res@ == "    "@ + yellow_text("Directory is empty"@),
{
    let mut s = to_owned("    ");
    let m = crate::color::yellow("Directory is empty");
    push_str(&mut s, m.as_str());
    s
}

/// Whether a directory entry is shown: every entry when no names are
/// given, else those whose (UTF-8) name is among them.
pub fn selects_entry(print_files: &Vec<String>, file_name: &[u8]) -> (res: Result<bool, FilesError>)
    ensures
        print_files.len() == 0 ==> res == Ok::<bool, FilesError>(true),
        print_files.len() > 0 && !vstd::utf8::valid_utf8(file_name@) ==> res == Err::<
            bool,
            FilesError,
        >(FilesError::NonUtf8FileName),
        print_files.len() > 0 && vstd::utf8::valid_utf8(file_name@) ==> res == Ok::<
            bool,
            FilesError,
        >(strs(print_files@).contains(vstd::utf8::decode_utf8(file_name@))),
{
    if print_files.len() == 0 {
        return Ok(true);
    }
    match crate::text::utf8_str(file_name) {
        None => Err(FilesError::NonUtf8FileName),
        Some(n) => {
            let k = crate::text::position_of(print_files, n);
            proof {
                crate::text::lemma_first_index(strs(print_files@), n@);
            }
            if k < print_files.len() {
                assert(strs(print_files@)[k as int] == n@);
            }
            Ok(k < print_files.len())
        },
    }
}

} // verus!
