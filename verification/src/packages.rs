//! Installed Debian packages: the files dpkg records for each package with
//! their MD5 fingerprints, the download location from the apt lists, and the
//! comparison against the `md5sums` that a package archive ships.
use std::io::Read;
use vstd::prelude::*;
use crate::text::{
    strs, split_on, join, starts_with, ends_with, first_index, lemma_first_index,
    lemma_split_on_nonempty, split, to_owned, push_str, push_char, chars_of, string_of,
    has_prefix, has_suffix, str_eq,
};

verus! {

/// What can go wrong in the package steps of the audit.
#[derive(Debug, Clone, Copy, PartialEq, Eq, Structural)]
pub enum PackageError {
    /// An apt list file name has no `dists` component.
    NoDistsComponent,
    /// The package has no download location.
    MissingDownloadUrl,
    /// A dpkg info file stem is not UTF-8.
    NonUtf8FileStem,
    /// The name of a member of a package archive is not UTF-8.
    NonUtf8EntryName,
    /// A package's `md5sums` is not UTF-8.
    NonUtf8Md5sums,
    /// A line of a package's `md5sums` lacks the hash or the file name.
    MalformedMd5sumsLine,
    /// The compressed control archive of a package does not decompress.
    UndecodableControlArchive,
    /// An entry of a package's control archive cannot be read.
    MalformedControlArchive,
}

/// An installed package: its name, the files dpkg lists for it with the MD5
/// fingerprint of each (no path twice), and where its archive can be downloaded.
pub struct Package {
    pub name: String,
    pub files: Vec<(String, String)>,
    pub download_url: Option<String>,
}

/// The abstract value of a package.
pub struct PackageView {
    pub name: Seq<char>,
    pub files: Seq<(Seq<char>, Seq<char>)>,
    pub download_url: Option<Seq<char>>,
}

/// The (path, fingerprint) pairs of a file list.
pub open spec fn file_entries(v: Seq<(String, String)>) -> Seq<(Seq<char>, Seq<char>)> {
    v.map_values(|e: (String, String)| (e.0@, e.1@))
}

/// The paths of a file list.
pub open spec fn file_paths(files: Seq<(Seq<char>, Seq<char>)>) -> Seq<Seq<char>> {
    files.map_values(|e: (Seq<char>, Seq<char>)| e.0)
}

/// The characters of an optional string.
pub open spec fn opt_chars(o: Option<String>) -> Option<Seq<char>> {
    match o {
        Some(s) => Some(s@),
        None => None,
    }
}

impl View for Package {
    type V = PackageView;

    open spec fn view(&self) -> PackageView {
        PackageView {
            name: self.name@,
            files: file_entries(self.files@),
            download_url: opt_chars(self.download_url),
        }
    }
}

/// The abstract values of a list of packages.
pub open spec fn package_views(v: Seq<Package>) -> Seq<PackageView> {
    v.map_values(|p: Package| p@)
}

/// The names of a list of packages.
pub open spec fn package_names(v: Seq<PackageView>) -> Seq<Seq<char>> {
    v.map_values(|p: PackageView| p.name)
}

/// Every package of the list lists no path twice.
pub open spec fn all_wf(v: Seq<Package>) -> bool {
    forall|i: int| 0 <= i < v.len() ==> #[trigger] v[i].wf()
}

impl Package {
    /// No path is listed twice.
    pub open spec fn wf(&self) -> bool {
        file_paths(self@.files).no_duplicates()
    }

    /// A package with no files and no download location.
    pub fn new(name: String) -> (res: Package)
        ensures
            res@ == (PackageView {
                name: name@,
                files: Seq::<(Seq<char>, Seq<char>)>::empty(),
                download_url: None,
            }),
            res.wf(),
    {
        let res = Package { name, files: Vec::new(), download_url: None };
        assert(file_entries(res.files@) =~= Seq::<(Seq<char>, Seq<char>)>::empty());
        res
    }

    /// Records the fingerprint of a file: the entry of `path` is replaced when
    /// there is one, else the pair is appended.
    pub fn add_file(&mut self, path: String, hash: String)
        ensures
            final(self)@ == (PackageView {
                name: old(self)@.name,
                files: insert_file(old(self)@.files, path@, hash@),
                download_url: old(self)@.download_url,
            }),
            old(self).wf() ==> final(self).wf(),
    {
        let ghost old_files = self@.files;
        proof {
            lemma_first_index(file_paths(old_files), path@);
        }
        let mut k: usize = 0;
        while k < self.files.len()
            invariant
                k <= self.files.len(),
                file_entries(self.files@) == old_files,
                self@.name == old(self)@.name,
                self@.download_url == old(self)@.download_url,
                old_files == old(self)@.files,
                forall|j: int| 0 <= j < k ==> file_paths(old_files)[j] != path@,
                0 <= first_index(file_paths(old_files), path@) <= old_files.len(),
                forall|j: int|
                    0 <= j < first_index(file_paths(old_files), path@) ==> file_paths(old_files)[j]
                        != path@,
                first_index(file_paths(old_files), path@) < old_files.len() ==> file_paths(
                    old_files,
                )[first_index(file_paths(old_files), path@)] == path@,
            decreases self.files.len() - k,
        {
            if str_eq(self.files[k].0.as_str(), path.as_str()) {
                assert(file_paths(old_files)[k as int] == path@);
                assert(first_index(file_paths(old_files), path@) == k);
                let ghost p = path@;
                let ghost h = hash@;
                self.files.set(k, (path, hash));
                assert(file_entries(self.files@) =~= old_files.update(k as int, (p, h)));
                proof {
                    if old_files.len() > 0 && file_paths(old_files).no_duplicates() {
                        assert(file_paths(file_entries(self.files@)) =~= file_paths(old_files));
                    }
                }
                return;
            }
            k += 1;
        }
        assert(first_index(file_paths(old_files), path@) == self.files.len());
        let ghost p = path@;
        let ghost h = hash@;
        self.files.push((path, hash));
        assert(file_entries(self.files@) =~= old_files.push((p, h)));
        assert(file_paths(file_entries(self.files@)) =~= file_paths(old_files).push(p));
    }
}

/// Inserting into a file list: the pair replaces the entry with the same path,
/// or is appended.
pub open spec fn insert_file(
    files: Seq<(Seq<char>, Seq<char>)>,
    path: Seq<char>,
    hash: Seq<char>,
) -> Seq<(Seq<char>, Seq<char>)> {
    let k = first_index(file_paths(files), path);
    if k < files.len() {
        files.update(k, (path, hash))
    } else {
        files.push((path, hash))
    }
}

// ---------------------------------------------------------------------------
// Download locations from the apt lists
// ---------------------------------------------------------------------------

/// The archive base URL that an apt list file name encodes
/// (`host_path_..._dists_suite_component_binary-arch_Packages`): the first
/// component is the host, the components up to the first `dists` the path.
pub open spec fn base_url_of(name: Seq<char>) -> Option<Seq<char>> {
    let parts = split_on(name, '_');
    let k = first_index(parts, "dists"@);
    if k < parts.len() {
        Some("https://"@ + parts[0] + "/"@ + join(parts.subrange(1, k), "/"@))
    } else {
        None
    }
}

/// The archive base URL of an apt list file.
///
/// A name whose first component is `dists` is left out: the path would be the
/// components from the second up to the first, a backwards range, on which
/// slicing panics.
pub fn get_base_url(name: &str) -> (res: Result<String, PackageError>)
    requires
        split_on(name@, '_')[0] != "dists"@,
    ensures
        match base_url_of(name@) {
            Some(u) => res matches Ok(s) && s@ == u,
            None => res == Err::<String, PackageError>(PackageError::NoDistsComponent),
        },
{
    let parts = split(name, '_');
    proof {
        lemma_split_on_nonempty(name@, '_');
        lemma_first_index(strs(parts@), "dists"@);
    }
    let k = crate::text::position_of(&parts, "dists");
    if k == parts.len() {
        return Err(PackageError::NoDistsComponent);
    }
    assert(k > 0);
    let mut url = to_owned("https://");
    push_str(&mut url, parts[0].as_str());
    push_str(&mut url, "/");
    let ghost head = "https://"@ + strs(parts@)[0] + "/"@;
    assert(url@ == head);
    let mut j: usize = 1;
    while j < k
        invariant
            1 <= j <= k < parts.len(),
            url@ == head + join(strs(parts@).subrange(1, j as int), "/"@),
        decreases k - j,
    {
        if j > 1 {
            push_str(&mut url, "/");
        }
        push_str(&mut url, parts[j].as_str());
        assert(strs(parts@).subrange(1, j + 1).drop_last() =~= strs(parts@).subrange(1, j as int));
        if j == 1 {
            assert(strs(parts@).subrange(1, 2) =~= seq![strs(parts@)[1]]);
        }
        assert(url@ =~= head + join(strs(parts@).subrange(1, j + 1), "/"@));
        j += 1;
    }
    Ok(url)
}

/// The package with the given name (the first one) gets the download location `url`.
pub open spec fn set_url(pkgs: Seq<PackageView>, name: Seq<char>, url: Seq<char>) -> Seq<
    PackageView,
> {
    let k = first_index(package_names(pkgs), name);
    if k < pkgs.len() {
        pkgs.update(
            k,
            PackageView { name: pkgs[k].name, files: pkgs[k].files, download_url: Some(url) },
        )
    } else {
        pkgs
    }
}

/// The effect of the lines of an apt list on the packages: a `Package: `
/// line names the current package, a `Filename: ` line gives the current
/// package the location `base/<filename>`; `current` is the package named so far.
pub open spec fn apt_lines(
    pkgs: Seq<PackageView>,
    current: Seq<char>,
    base: Seq<char>,
    lines: Seq<Seq<char>>,
) -> Seq<PackageView>
    decreases lines.len(),
{
    if lines.len() == 0 {
        pkgs
    } else {
        let line = lines[0];
        if starts_with(line, "Package: "@) {
            apt_lines(pkgs, line.skip(9), base, lines.drop_first())
        } else if starts_with(line, "Filename: "@) {
            apt_lines(
                set_url(pkgs, current, base + "/"@ + line.skip(10)),
                current,
                base,
                lines.drop_first(),
            )
        } else {
            apt_lines(pkgs, current, base, lines.drop_first())
        }
    }
}

/// Position of the first package with the given name, or the number of packages.
fn find_package(packages: &Vec<Package>, name: &str) -> (res: usize)
    ensures
        res as int == first_index(package_names(package_views(packages@)), name@),
{
    let ghost names = package_names(package_views(packages@));
    proof {
        lemma_first_index(names, name@);
    }
    let mut i: usize = 0;
    while i < packages.len()
        invariant
            i <= packages.len(),
            names == package_names(package_views(packages@)),
            forall|j: int| 0 <= j < i ==> names[j] != name@,
            0 <= first_index(names, name@) <= packages.len(),
            forall|j: int| 0 <= j < first_index(names, name@) ==> names[j] != name@,
            first_index(names, name@) < packages.len() ==> names[first_index(names, name@)]
                == name@,
        decreases packages.len() - i,
    {
        if str_eq(packages[i].name.as_str(), name) {
            assert(names[i as int] == name@);
            return i;
        }
        i += 1;
    }
    i
}

/// Sets the download location of the first package with the given name.
fn set_download_url(packages: &mut Vec<Package>, name: &str, url: String)
    ensures
        package_views(final(packages)@) == set_url(package_views(old(packages)@), name@, url@),
        all_wf(old(packages)@) ==> all_wf(final(packages)@),
{
    let k = find_package(packages, name);
    if k < packages.len() {
        let ghost before = package_views(packages@);
        let ghost before_pkgs = packages@;
        let mut p = packages.remove(k);
        let ghost u = url@;
        p.download_url = Some(url);
        packages.insert(k, p);
        proof {
            if all_wf(before_pkgs) {
                assert(before_pkgs[k as int].wf());
                assert forall|j: int| 0 <= j < packages@.len() implies #[trigger] packages@[j].wf() by {
                    if j != k {
                        assert(packages@[j] == before_pkgs[j]);
                    }
                }
            }
        }
        assert(package_views(packages@) =~= before.update(
            k as int,
            PackageView { name: before[k as int].name, files: before[k as int].files, download_url: Some(u) },
        ));
    }
}

/// Whether an apt list file is a package index (its name ends in `_Packages`).
pub fn is_package_list(file_name: &str) -> (res: bool)
    ensures
        res == ends_with(file_name@, "_Packages"@),
{
    has_suffix(file_name, "_Packages")
}

/// Applies the lines of a package index whose archive base URL is `base`:
/// a `Package: ` line names the current package, and a `Filename: ` line
/// gives that package (the first one with the name) the download location
/// `<base>/<filename>`.
pub fn apply_apt_lines(packages: &mut Vec<Package>, base: &str, lines: &Vec<String>)
    ensures
        package_views(final(packages)@) == apt_lines(
            package_views(old(packages)@),
            Seq::<char>::empty(),
            base@,
            strs(lines@),
        ),
        all_wf(old(packages)@) ==> all_wf(final(packages)@),
{
    proof {
        reveal_strlit("Package: ");
        reveal_strlit("Filename: ");
    }
    let ghost all = strs(lines@);
    let ghost start = package_views(packages@);
    let mut current = String::new();
    let mut i: usize = 0;
    assert(all.skip(0) == all);
    while i < lines.len()
        invariant
            i <= lines.len(),
            all == strs(lines@),
            start == package_views(old(packages)@),
            all_wf(old(packages)@) ==> all_wf(packages@),
            "Package: "@.len() == 9,
            "Filename: "@.len() == 10,
            apt_lines(start, Seq::<char>::empty(), base@, all) == apt_lines(
                package_views(packages@),
                current@,
                base@,
                all.skip(i as int),
            ),
        decreases lines.len() - i,
    {
        let line = lines[i].as_str();
        let ghost rest = all.skip(i as int);
        assert(rest[0] == line@);
        assert(rest.drop_first() == all.skip(i + 1));
        if has_prefix(line, "Package: ") {
            let cs = chars_of(line);
            current = string_of(&cs, 9, cs.len());
            assert(current@ == line@.skip(9));
        } else if has_prefix(line, "Filename: ") {
            let cs = chars_of(line);
            let mut url = to_owned(base);
            push_str(&mut url, "/");
            let tail = string_of(&cs, 10, cs.len());
            push_str(&mut url, tail.as_str());
            assert(tail@ == line@.skip(10));
            set_download_url(packages, current.as_str(), url);
        }
        i += 1;
    }
    assert(all.skip(lines.len() as int) =~= Seq::<Seq<char>>::empty());
}

// ---------------------------------------------------------------------------
// The dpkg database
// ---------------------------------------------------------------------------

/// The two kinds of dpkg info file the audit reads.
#[derive(Debug, Clone, Copy, PartialEq, Eq, Structural)]
pub enum DpkgFileKind {
    /// `<package>.conffiles`: the package's configuration files.
    Conffiles,
    /// `<package>.list`: every path the package installed.
    List,
}

/// The stem and the extension of a file name, as `Path::file_stem` and
/// `Path::extension` split it: at the last `'.'`, unless the name is `".."`,
/// has no `'.'`, or has its only `'.'` in front.
pub open spec fn stem_and_extension(name: Seq<u8>) -> (Seq<u8>, Option<Seq<u8>>) {
    let i = crate::text::last_index(name, 0x2eu8);
    if name == crate::paths::parent_dir() || i <= 0 {
        (name, None)
    } else {
        (name.take(i), Some(name.skip(i + 1)))
    }
}

/// The bytes of `conffiles`.
pub open spec fn conffiles_ext() -> Seq<u8> {
    seq![0x63u8, 0x6fu8, 0x6eu8, 0x66u8, 0x66u8, 0x69u8, 0x6cu8, 0x65u8, 0x73u8]
}

/// The bytes of `list`.
pub open spec fn list_ext() -> Seq<u8> {
    seq![0x6cu8, 0x69u8, 0x73u8, 0x74u8]
}

/// The kind of a dpkg info file, by its extension, with the file's stem.
pub open spec fn dpkg_kind_of(name: Seq<u8>) -> Option<(DpkgFileKind, Seq<u8>)> {
    let (stem, ext) = stem_and_extension(name);
    match ext {
        Some(e) => if e == conffiles_ext() {
            Some((DpkgFileKind::Conffiles, stem))
        } else if e == list_ext() {
            Some((DpkgFileKind::List, stem))
        } else {
            None
        },
        None => None,
    }
}

/// The package that a dpkg info file stem names: the part before any `':'`
/// (which introduces the architecture).
pub open spec fn package_name_of(stem: Seq<char>) -> Seq<char> {
    split_on(stem, ':')[0]
}

/// Copies `v[from..to]`.
fn copy_range(v: &[u8], from: usize, to: usize) -> (res: Vec<u8>)
    requires
        from <= to <= v.len(),
    ensures
        res@ == v@.subrange(from as int, to as int),
{
    let mut res: Vec<u8> = Vec::new();
    let mut i = from;
    while i < to
        invariant
            from <= i <= to <= v.len(),
            res@ == v@.subrange(from as int, i as int),
        decreases to - i,
    {
        res.push(v[i]);
        assert(v@.subrange(from as int, i + 1) == v@.subrange(from as int, i as int).push(
            v@[i as int],
        ));
        i += 1;
    }
    res
}

/// Classifies an entry of the dpkg info directory by its file name: a
/// `.conffiles` or `.list` file, with the package it belongs to; any other
/// file is `None`. A stem of a matching file that is not UTF-8 is an error.
pub fn dpkg_info_file(file_name: &[u8]) -> (res: Result<Option<(DpkgFileKind, String)>, PackageError>)
    ensures
        match dpkg_kind_of(file_name@) {
            None => res matches Ok(None),
            Some((k, stem)) => if vstd::utf8::valid_utf8(stem) {
                res matches Ok(Some((k2, n))) && k2 == k && n@ == package_name_of(
                    vstd::utf8::decode_utf8(stem),
                )
            } else {
                res == Err::<Option<(DpkgFileKind, String)>, PackageError>(
                    PackageError::NonUtf8FileStem,
                )
            },
        },
{
    let n = file_name.len();
    proof {
        crate::text::lemma_last_index(file_name@, 0x2eu8);
    }
    let mut i: usize = n;
    while i > 0 && file_name[i - 1] != 0x2e
        invariant
            i <= n == file_name@.len(),
            forall|j: int| i <= j < n ==> file_name@[j] != 0x2eu8,
            -1 <= crate::text::last_index(file_name@, 0x2eu8) < n,
            forall|j: int|
                crate::text::last_index(file_name@, 0x2eu8) < j < n ==> file_name@[j] != 0x2eu8,
            crate::text::last_index(file_name@, 0x2eu8) >= 0 ==> file_name@[crate::text::last_index(
                file_name@,
                0x2eu8,
            )] == 0x2eu8,
        decreases i,
    {
        i -= 1;
    }
    // i - 1 is the last '.', or i == 0 when there is none
    assert(i == crate::text::last_index(file_name@, 0x2eu8) + 1);
    let dotdot: Vec<u8> = vec![0x2eu8, 0x2eu8];
    if i <= 1 || crate::paths::bytes_eq(file_name, dotdot.as_slice()) {
        return Ok(None);
    }
    let dot = i - 1;
    let ext = copy_range(file_name, dot + 1, n);
    assert(ext@ == file_name@.skip(dot + 1));
    let conffiles: Vec<u8> = vec![0x63u8, 0x6fu8, 0x6eu8, 0x66u8, 0x66u8, 0x69u8, 0x6cu8, 0x65u8, 0x73u8];
    let list: Vec<u8> = vec![0x6cu8, 0x69u8, 0x73u8, 0x74u8];
    assert(conffiles@ == conffiles_ext());
    assert(list@ == list_ext());
    let kind = if crate::paths::bytes_eq(ext.as_slice(), conffiles.as_slice()) {
        DpkgFileKind::Conffiles
    } else if crate::paths::bytes_eq(ext.as_slice(), list.as_slice()) {
        DpkgFileKind::List
    } else {
        return Ok(None);
    };
    let stem = copy_range(file_name, 0, dot);
    assert(stem@ == file_name@.take(dot as int));
    match crate::text::utf8_str(stem.as_slice()) {
        Some(s) => {
            let pieces = split(s, ':');
            proof {
                lemma_split_on_nonempty(s@, ':');
            }
            let name = to_owned(pieces[0].as_str());
            Ok(Some((kind, name)))
        },
        None => Err(PackageError::NonUtf8FileStem),
    }
}

/// Adds a path to a set of configuration files (unchanged when it is there).
pub fn add_conffile(paths: &mut Vec<String>, path: String)
    ensures
        strs(final(paths)@) == (if strs(old(paths)@).contains(path@) {
            strs(old(paths)@)
        } else {
            strs(old(paths)@).push(path@)
        }),
{
    let k = crate::text::position_of(paths, path.as_str());
    proof {
        lemma_first_index(strs(paths@), path@);
    }
    if k < paths.len() {
        assert(strs(paths@)[k as int] == path@);
        return;
    }
    let ghost before = strs(paths@);
    let ghost p = path@;
    paths.push(path);
    assert(strs(paths@) =~= before.push(p));
}

/// The configuration files of each package that has them, by package name.
pub open spec fn conf_views(v: Seq<(String, Vec<String>)>) -> Seq<(Seq<char>, Seq<Seq<char>>)> {
    v.map_values(|e: (String, Vec<String>)| (e.0@, strs(e.1@)))
}

/// Records the configuration files of a package, replacing the set recorded
/// under the same name, or appending.
pub open spec fn insert_conf(
    confs: Seq<(Seq<char>, Seq<Seq<char>>)>,
    name: Seq<char>,
    paths: Seq<Seq<char>>,
) -> Seq<(Seq<char>, Seq<Seq<char>>)> {
    let k = first_index(confs.map_values(|e: (Seq<char>, Seq<Seq<char>>)| e.0), name);
    if k < confs.len() {
        confs.update(k, (name, paths))
    } else {
        confs.push((name, paths))
    }
}

/// Records the configuration files of a package.
pub fn set_conffiles(confs: &mut Vec<(String, Vec<String>)>, name: String, paths: Vec<String>)
    ensures
        conf_views(final(confs)@) == insert_conf(conf_views(old(confs)@), name@, strs(paths@)),
{
    let ghost old_v = conf_views(confs@);
    let ghost keys = old_v.map_values(|e: (Seq<char>, Seq<Seq<char>>)| e.0);
    proof {
        lemma_first_index(keys, name@);
    }
    let mut k: usize = 0;
    while k < confs.len()
        invariant
            k <= confs.len(),
            conf_views(confs@) == old_v,
            old_v == conf_views(old(confs)@),
            keys == old_v.map_values(|e: (Seq<char>, Seq<Seq<char>>)| e.0),
            forall|j: int| 0 <= j < k ==> keys[j] != name@,
            0 <= first_index(keys, name@) <= keys.len(),
            forall|j: int| 0 <= j < first_index(keys, name@) ==> keys[j] != name@,
            first_index(keys, name@) < keys.len() ==> keys[first_index(keys, name@)] == name@,
        decreases confs.len() - k,
    {
        if str_eq(confs[k].0.as_str(), name.as_str()) {
            assert(keys[k as int] == name@);
            assert(first_index(keys, name@) == k);
            let ghost n = name@;
            let ghost ps = strs(paths@);
            confs.set(k, (name, paths));
            assert(conf_views(confs@) =~= old_v.update(k as int, (n, ps)));
            return;
        }
        k += 1;
    }
    let ghost n = name@;
    let ghost ps = strs(paths@);
    confs.push((name, paths));
    assert(conf_views(confs@) =~= old_v.push((n, ps)));
}

/// The files whose paths are not among `paths`, in order.
pub open spec fn without_paths(
    files: Seq<(Seq<char>, Seq<char>)>,
    paths: Seq<Seq<char>>,
) -> Seq<(Seq<char>, Seq<char>)>
    decreases files.len(),
{
    if files.len() == 0 {
        files
    } else {
        let init = without_paths(files.drop_last(), paths);
        if paths.contains(files.last().0) {
            init
        } else {
            init.push(files.last())
        }
    }
}

/// The first package named `name` loses the files among `paths`.
pub open spec fn strip_conffiles(
    pkgs: Seq<PackageView>,
    name: Seq<char>,
    paths: Seq<Seq<char>>,
) -> Seq<PackageView> {
    let k = first_index(package_names(pkgs), name);
    if k < pkgs.len() {
        pkgs.update(
            k,
            PackageView {
                name: pkgs[k].name,
                files: without_paths(pkgs[k].files, paths),
                download_url: pkgs[k].download_url,
            },
        )
    } else {
        pkgs
    }
}

/// Each recorded set of configuration files taken out of its package's files.
pub open spec fn strip_all_conffiles(
    pkgs: Seq<PackageView>,
    confs: Seq<(Seq<char>, Seq<Seq<char>>)>,
) -> Seq<PackageView>
    decreases confs.len(),
{
    if confs.len() == 0 {
        pkgs
    } else {
        strip_all_conffiles(strip_conffiles(pkgs, confs[0].0, confs[0].1), confs.drop_first())
    }
}

/// The files of a list whose paths are not among `paths`.
fn files_without(files: &Vec<(String, String)>, paths: &Vec<String>) -> (res: Vec<(String, String)>)
    ensures
        file_entries(res@) == without_paths(file_entries(files@), strs(paths@)),
{
    let mut res: Vec<(String, String)> = Vec::new();
    let mut i: usize = 0;
    while i < files.len()
        invariant
            i <= files.len(),
            file_entries(res@) == without_paths(file_entries(files@).take(i as int), strs(paths@)),
        decreases files.len() - i,
    {
        let ghost pre = file_entries(files@).take(i + 1);
        assert(pre.drop_last() == file_entries(files@).take(i as int));
        assert(pre.last() == file_entries(files@)[i as int]);
        let k = crate::text::position_of(paths, files[i].0.as_str());
        proof {
            lemma_first_index(strs(paths@), files@[i as int].0@);
        }
        if k == paths.len() {
            assert(!strs(paths@).contains(files@[i as int].0@));
            let ghost before = file_entries(res@);
            let p = (to_owned(files[i].0.as_str()), to_owned(files[i].1.as_str()));
            res.push(p);
            assert(file_entries(res@) =~= before.push(file_entries(files@)[i as int]));
        } else {
            assert(strs(paths@)[k as int] == files@[i as int].0@);
        }
        i += 1;
    }
    assert(file_entries(files@).take(files.len() as int) == file_entries(files@));
    res
}

/// Takes each package's configuration files out of its file list: for each
/// recorded set, the first package with that name loses those paths
/// (configuration files legitimately differ from what the package shipped).
pub fn remove_conffiles(packages: &mut Vec<Package>, confs: &Vec<(String, Vec<String>)>)
    ensures
        package_views(final(packages)@) == strip_all_conffiles(
            package_views(old(packages)@),
            conf_views(confs@),
        ),
        all_wf(old(packages)@) ==> all_wf(final(packages)@),
{
    let ghost all = conf_views(confs@);
    let ghost start = package_views(packages@);
    let mut i: usize = 0;
    assert(all.skip(0) == all);
    while i < confs.len()
        invariant
            i <= confs.len(),
            all == conf_views(confs@),
            strip_all_conffiles(start, all) == strip_all_conffiles(
                package_views(packages@),
                all.skip(i as int),
            ),
            start == package_views(old(packages)@),
            all_wf(old(packages)@) ==> all_wf(packages@),
        decreases confs.len() - i,
    {
        let ghost rest = all.skip(i as int);
        assert(rest[0] == all[i as int]);
        assert(rest.drop_first() == all.skip(i + 1));
        let k = find_package(packages, confs[i].0.as_str());
        if k < packages.len() {
            let ghost before = package_views(packages@);
            let ghost before_pkgs = packages@;
            let mut p = packages.remove(k);
            let ghost old_files = p@.files;
            let kept = files_without(&p.files, &confs[i].1);
            p.files = kept;
            proof {
                if file_paths(old_files).no_duplicates() {
                    law_conffile_removal_keeps_paths_distinct(old_files, strs(confs@[i as int].1@));
                }
            }
            packages.insert(k, p);
            proof {
                if all_wf(before_pkgs) {
                    assert(before_pkgs[k as int].wf());
                    assert forall|j: int| 0 <= j < packages@.len() implies #[trigger] packages@[j].wf() by {
                        if j != k {
                            assert(packages@[j] == before_pkgs[j]);
                        }
                    }
                }
            }
            assert(package_views(packages@) =~= strip_conffiles(before, all[i as int].0, all[i as int].1));
        }
        i += 1;
    }
    assert(all.skip(confs.len() as int) =~= Seq::<(Seq<char>, Seq<Seq<char>>)>::empty());
}

// ---------------------------------------------------------------------------
// Checking installed files against a package archive
// ---------------------------------------------------------------------------

/// Where to fetch a package's archive: its download location, with every
/// `https` turned into `http`.
pub fn download_location(package: &Package) -> (res: Result<String, PackageError>)
    ensures
        match package@.download_url {
            None => res == Err::<String, PackageError>(PackageError::MissingDownloadUrl),
            Some(u) => res matches Ok(s) && s@ == crate::text::replace_all(u, "https"@, "http"@),
        },
{
    match &package.download_url {
        None => Err(PackageError::MissingDownloadUrl),
        Some(u) => {
            proof {
                reveal_strlit("https");
            }
            Ok(crate::text::replace_str(u.as_str(), "https", "http"))
        },
    }
}

/// What to do with a member of a package archive.
#[derive(Debug, Clone, Copy, PartialEq, Eq, Structural)]
pub enum ArEntryAction {
    /// Not the control archive: skip its data.
    Skip,
    /// The control archive, zstd-compressed.
    Zstd,
    /// The control archive, xz-compressed.
    Xz,
    /// The control archive, gzip-compressed.
    Gzip,
    /// The control archive, uncompressed.
    Plain,
}

/// The action for an archive member with the given name: only
/// `control.tar*` is read, decompressed by its suffix.
pub open spec fn ar_action_of(name: Seq<char>) -> ArEntryAction {
    if !starts_with(name, "control.tar"@) {
        ArEntryAction::Skip
    } else if ends_with(name, ".zst"@) {
        ArEntryAction::Zstd
    } else if ends_with(name, "xz"@) {
        ArEntryAction::Xz
    } else if ends_with(name, "gz"@) {
        ArEntryAction::Gzip
    } else {
        ArEntryAction::Plain
    }
}

/// The action for an archive member, from the raw bytes of its identifier.
pub fn ar_entry_action(identifier: &[u8]) -> (res: Result<ArEntryAction, PackageError>)
    ensures
        vstd::utf8::valid_utf8(identifier@) ==> res == Ok::<ArEntryAction, PackageError>(
            ar_action_of(vstd::utf8::decode_utf8(identifier@)),
        ),
        !vstd::utf8::valid_utf8(identifier@) ==> res == Err::<ArEntryAction, PackageError>(
            PackageError::NonUtf8EntryName,
        ),
{
    match crate::text::utf8_str(identifier) {
        None => Err(PackageError::NonUtf8EntryName),
        Some(name) => {
            if !has_prefix(name, "control.tar") {
                Ok(ArEntryAction::Skip)
            } else if has_suffix(name, ".zst") {
                Ok(ArEntryAction::Zstd)
            } else if has_suffix(name, "xz") {
                Ok(ArEntryAction::Xz)
            } else if has_suffix(name, "gz") {
                Ok(ArEntryAction::Gzip)
            } else {
                Ok(ArEntryAction::Plain)
            }
        },
    }
}

/// The bytes of `md5sums`.
pub open spec fn md5sums_name() -> Seq<u8> {
    seq![0x6du8, 0x64u8, 0x35u8, 0x73u8, 0x75u8, 0x6du8, 0x73u8]
}

/// Whether a member of the control archive is the `md5sums` file: its path's
/// file name is exactly `md5sums`.
pub fn is_md5sums_path(path: &[u8]) -> (res: bool)
    ensures
        res == (crate::paths::file_name_of(path@) == Some(md5sums_name())),
{
    let want: Vec<u8> = vec![0x6du8, 0x64u8, 0x35u8, 0x73u8, 0x75u8, 0x6du8, 0x73u8];
    assert(want@ == md5sums_name());
    match crate::paths::file_name(path) {
        Some(n) => crate::paths::bytes_eq(n.as_slice(), want.as_slice()),
        None => false,
    }
}

/// A line of `md5sums` has a hash and a file name.
pub open spec fn md5sums_line_ok(line: Seq<char>) -> bool {
    crate::text::words(line).len() >= 2
}

/// The (path, hash) pair of a line of `md5sums`: the second word, made
/// absolute with a leading `'/'`, and the first word.
pub open spec fn md5sums_entry(line: Seq<char>) -> (Seq<char>, Seq<char>) {
    ("/"@ + crate::text::words(line)[1], crate::text::words(line)[0])
}

/// The (path, hash) pairs of an `md5sums` text, one per line, or none when
/// some line lacks a field.
pub open spec fn md5sums_table(text: Seq<char>) -> Option<Seq<(Seq<char>, Seq<char>)>> {
    let ls = crate::text::lines(text);
    if forall|i: int| 0 <= i < ls.len() ==> md5sums_line_ok(#[trigger] ls[i]) {
        Some(ls.map_values(|l: Seq<char>| md5sums_entry(l)))
    } else {
        None
    }
}

/// The hash that a table gives for a path: that of the last pair naming it.
pub open spec fn lookup_last(table: Seq<(Seq<char>, Seq<char>)>, path: Seq<char>) -> Option<
    Seq<char>,
>
    decreases table.len(),
{
    if table.len() == 0 {
        None
    } else if table.last().0 == path {
        Some(table.last().1)
    } else {
        lookup_last(table.drop_last(), path)
    }
}

/// The installed files whose fingerprint differs from the package's, in order.
pub open spec fn failed_files(
    files: Seq<(Seq<char>, Seq<char>)>,
    table: Seq<(Seq<char>, Seq<char>)>,
) -> Seq<Seq<char>>
    decreases files.len(),
{
    if files.len() == 0 {
        Seq::<Seq<char>>::empty()
    } else {
        let init = failed_files(files.drop_last(), table);
        let f = files.last();
        match lookup_last(table, f.0) {
            Some(h) => if h != f.1 {
                init.push(f.0)
            } else {
                init
            },
            None => init,
        }
    }
}

/// The installed files that the package's `md5sums` does not mention, in order.
pub open spec fn missed_files(
    files: Seq<(Seq<char>, Seq<char>)>,
    table: Seq<(Seq<char>, Seq<char>)>,
) -> Seq<Seq<char>>
    decreases files.len(),
{
    if files.len() == 0 {
        Seq::<Seq<char>>::empty()
    } else {
        let init = missed_files(files.drop_last(), table);
        let f = files.last();
        match lookup_last(table, f.0) {
            Some(h) => init,
            None => init.push(f.0),
        }
    }
}

/// The installed files whose fingerprint matches the package's, in order.
pub open spec fn matched_files(
    files: Seq<(Seq<char>, Seq<char>)>,
    table: Seq<(Seq<char>, Seq<char>)>,
) -> Seq<Seq<char>>
    decreases files.len(),
{
    if files.len() == 0 {
        Seq::<Seq<char>>::empty()
    } else {
        let init = matched_files(files.drop_last(), table);
        let f = files.last();
        match lookup_last(table, f.0) {
            Some(h) => if h == f.1 {
                init.push(f.0)
            } else {
                init
            },
            None => init,
        }
    }
}

/// The (path, hash) pairs of an `md5sums` text.
fn parse_md5sums(text: &str) -> (res: Option<Vec<(String, String)>>)
    ensures
        match md5sums_table(text@) {
            None => res is None,
            Some(t) => res matches Some(v) && file_entries(v@) == t,
        },
{
    let ls = crate::text::split_lines(text);
    let ghost lv = crate::text::lines(text@);
    let mut table: Vec<(String, String)> = Vec::new();
    let mut i: usize = 0;
    while i < ls.len()
        invariant
            i <= ls.len(),
            strs(ls@) == lv,
            lv == crate::text::lines(text@),
            forall|j: int| 0 <= j < i ==> md5sums_line_ok(#[trigger] lv[j]),
            file_entries(table@) == lv.take(i as int).map_values(|l: Seq<char>| md5sums_entry(l)),
        decreases ls.len() - i,
    {
        let ws = crate::text::split_words(ls[i].as_str());
        assert(strs(ls@)[i as int] == ls@[i as int]@);
        if ws.len() < 2 {
            assert(!md5sums_line_ok(lv[i as int]));
            return None;
        }
        let mut path = to_owned("/");
        push_str(&mut path, ws[1].as_str());
        let hash = to_owned(ws[0].as_str());
        let ghost before = file_entries(table@);
        let ghost entry = (path@, hash@);
        assert(entry == md5sums_entry(lv[i as int]));
        table.push((path, hash));
        assert(file_entries(table@) =~= before.push(entry));
        assert(lv.take(i + 1).map_values(|l: Seq<char>| md5sums_entry(l)) =~= lv.take(
            i as int,
        ).map_values(|l: Seq<char>| md5sums_entry(l)).push(entry));
        i += 1;
    }
    assert(lv.take(i as int) == lv);
    Some(table)
}

/// The hash that a table gives for a path.
fn lookup(table: &Vec<(String, String)>, path: &str) -> (res: Option<usize>)
    ensures
        match lookup_last(file_entries(table@), path@) {
            None => res is None,
            Some(h) => res matches Some(k) && k < table.len() && table@[k as int].1@ == h,
        },
{
    let mut k: usize = table.len();
    assert(file_entries(table@).take(k as int) =~= file_entries(table@));
    while k > 0
        invariant
            k <= table.len(),
            lookup_last(file_entries(table@), path@) == lookup_last(
                file_entries(table@).take(k as int),
                path@,
            ),
        decreases k,
    {
        let ghost pre = file_entries(table@).take(k as int);
        assert(pre.drop_last() == file_entries(table@).take(k - 1));
        assert(pre.last() == file_entries(table@)[k - 1]);
        if str_eq(table[k - 1].0.as_str(), path) {
            return Some(k - 1);
        }
        k -= 1;
    }
    None
}

/// Compares a package's installed files with the `md5sums` found in its
/// archive: the files whose fingerprint differs, and those that `md5sums`
/// does not mention.
pub fn check_md5sums(package: &Package, data: &[u8]) -> (res: Result<
    (Vec<String>, Vec<String>),
    PackageError,
>)
    ensures
        !vstd::utf8::valid_utf8(data@) ==> res == Err::<(Vec<String>, Vec<String>), PackageError>(
            PackageError::NonUtf8Md5sums,
        ),
        vstd::utf8::valid_utf8(data@) ==> match md5sums_table(vstd::utf8::decode_utf8(data@)) {
            None => res == Err::<(Vec<String>, Vec<String>), PackageError>(
                PackageError::MalformedMd5sumsLine,
            ),
            Some(t) => res matches Ok((f, m)) && strs(f@) == failed_files(package@.files, t)
                && strs(m@) == missed_files(package@.files, t),
        },
        package.wf() ==> (res matches Ok((f, m)) ==> strs(f@).no_duplicates() && strs(
            m@,
        ).no_duplicates() && forall|x: Seq<char>|
            !(#[trigger] strs(f@).contains(x) && strs(m@).contains(x))),
{
    let text = match crate::text::utf8_str(data) {
        None => {
            return Err(PackageError::NonUtf8Md5sums);
        },
        Some(t) => t,
    };
    let table = match parse_md5sums(text) {
        None => {
            return Err(PackageError::MalformedMd5sumsLine);
        },
        Some(t) => t,
    };
    let ghost t = file_entries(table@);
    let ghost files = package@.files;
    let mut failed: Vec<String> = Vec::new();
    let mut missed: Vec<String> = Vec::new();
    let mut i: usize = 0;
    while i < package.files.len()
        invariant
            i <= package.files.len(),
            files == file_entries(package.files@),
            t == file_entries(table@),
            strs(failed@) == failed_files(files.take(i as int), t),
            strs(missed@) == missed_files(files.take(i as int), t),
        decreases package.files.len() - i,
    {
        let ghost pre = files.take(i + 1);
        assert(pre.drop_last() == files.take(i as int));
        assert(pre.last() == files[i as int]);
        let ghost f_before = strs(failed@);
        let ghost m_before = strs(missed@);
        match lookup(&table, package.files[i].0.as_str()) {
            Some(k) => {
                if !str_eq(table[k].1.as_str(), package.files[i].1.as_str()) {
                    failed.push(to_owned(package.files[i].0.as_str()));
                    assert(strs(failed@) =~= f_before.push(files[i as int].0));
                }
            },
            None => {
                missed.push(to_owned(package.files[i].0.as_str()));
                assert(strs(missed@) =~= m_before.push(files[i as int].0));
            },
        }
        i += 1;
    }
    assert(files.take(i as int) == files);
    proof {
        if package.wf() {
            law_failed_and_missed_are_distinct(files, t);
        }
    }
    Ok((failed, missed))
}

/// What decompressing a whole gzip stream gives: the decompressed bytes, or
/// nothing when the stream is not valid gzip.
pub uninterp spec fn gunzip_of(member: Seq<u8>) -> Option<Seq<u8>>;

/// What decompressing a whole xz stream gives: the decompressed bytes, or
/// nothing when the stream is not valid xz.
pub uninterp spec fn unxz_of(member: Seq<u8>) -> Option<Seq<u8>>;

/// What decompressing a whole zstd stream gives: the decompressed bytes, or
/// nothing when the stream is not valid zstd.
pub uninterp spec fn unzstd_of(member: Seq<u8>) -> Option<Seq<u8>>;

/// The entries of a tar archive in the order in which tar's reader yields
/// them: for each, the path bytes of its header and its data, or `None` for
/// an entry that could not be read.
pub uninterp spec fn tar_entries_of(archive: Seq<u8>) -> Seq<Option<(Seq<u8>, Seq<u8>)>>;

/// The bytes of an optional buffer.
pub open spec fn opt_bytes(o: Option<Vec<u8>>) -> Option<Seq<u8>> {
    match o {
        Some(v) => Some(v@),
        None => None,
    }
}

/// The abstract values of the entries of a tar archive.
pub open spec fn entry_views(v: Seq<Option<(Vec<u8>, Vec<u8>)>>) -> Seq<Option<(Seq<u8>, Seq<u8>)>> {
    v.map_values(
        |e: Option<(Vec<u8>, Vec<u8>)>|
            match e {
                Some((p, d)) => Some((p@, d@)),
                None => None,
            },
    )
}

/// Decompresses a gzip stream with flate2's `read::GzDecoder`, reading it to
/// its end. Claimed: the result is `gunzip_of` of the input, `None` where the
/// decoder reports an error; what the decompressed bytes are is not stated.
#[verifier::external_body]
fn gunzip(member: &[u8]) -> (res: Option<Vec<u8>>)
    ensures
        opt_bytes(res) == gunzip_of(member@),
{
    let mut out = Vec::new();
    match flate2::read::GzDecoder::new(member).read_to_end(&mut out) {
        Ok(_) => Some(out),
        Err(_) => None,
    }
}

/// Decompresses an xz stream with lzma-rust2's `XzReader` (one stream, as a
/// package archive holds), reading it to its end. Claimed: the result is
/// `unxz_of` of the input, `None` where the reader reports an error.
#[verifier::external_body]
fn unxz(member: &[u8]) -> (res: Option<Vec<u8>>)
    ensures
        opt_bytes(res) == unxz_of(member@),
{
    let mut out = Vec::new();
    match lzma_rust2::XzReader::new(member, false).read_to_end(&mut out) {
        Ok(_) => Some(out),
        Err(_) => None,
    }
}

/// Decompresses a zstd stream with ruzstd's `StreamingDecoder`, reading it to
/// its end. Claimed: the result is `unzstd_of` of the input, `None` where the
/// frame header is refused or a read reports an error.
#[verifier::external_body]
fn unzstd(member: &[u8]) -> (res: Option<Vec<u8>>)
    ensures
        opt_bytes(res) == unzstd_of(member@),
{
    let mut out = Vec::new();
    match ruzstd::decoding::StreamingDecoder::new(member) {
        Err(_) => None,
        Ok(mut decoder) => match decoder.read_to_end(&mut out) {
            Ok(_) => Some(out),
            Err(_) => None,
        },
    }
}

/// Reads the entries of a tar archive with tar's `Archive::entries`, each
/// converted to its header's `path_bytes` and its data read to the end, or
/// `None` where the iterator yields an error or the data cannot be read.
/// Claimed: the result is `tar_entries_of` of the input.
#[verifier::external_body]
fn tar_entries(archive: &[u8]) -> (res: Vec<Option<(Vec<u8>, Vec<u8>)>>)
    ensures
        entry_views(res@) == tar_entries_of(archive@),
{
    let mut reader = tar::Archive::new(archive);
    match reader.entries() {
        Err(_) => vec![None],
        Ok(entries) => entries.map(|item| item.ok().and_then(|mut e| {
            let path = e.header().path_bytes().into_owned();
            let mut data = Vec::new();
            e.read_to_end(&mut data).ok().map(|_| (path, data))
        })).collect(),
    }
}

/// The tar archive inside a control member: decompressed as its action says.
pub open spec fn decoded_control(action: ArEntryAction, member: Seq<u8>) -> Option<Seq<u8>> {
    match action {
        ArEntryAction::Zstd => unzstd_of(member),
        ArEntryAction::Xz => unxz_of(member),
        ArEntryAction::Gzip => gunzip_of(member),
        _ => Some(member),
    }
}

/// The data of the first entry whose path's file name is `md5sums`, none
/// when no entry is; an entry that cannot be read before it is an error.
pub open spec fn first_md5sums(entries: Seq<Option<(Seq<u8>, Seq<u8>)>>) -> Result<
    Option<Seq<u8>>,
    PackageError,
>
    decreases entries.len(),
{
    if entries.len() == 0 {
        Ok(None)
    } else {
        match entries[0] {
            None => Err(PackageError::MalformedControlArchive),
            Some(e) => if crate::paths::file_name_of(e.0) == Some(md5sums_name()) {
                Ok(Some(e.1))
            } else {
                first_md5sums(entries.drop_first())
            },
        }
    }
}

/// The `md5sums` data that a member of a package archive yields: none for a
/// member that is not read, an error when it does not decompress, else that
/// of the first `md5sums` entry of its tar archive.
pub open spec fn control_md5sums(action: ArEntryAction, member: Seq<u8>) -> Result<
    Option<Seq<u8>>,
    PackageError,
> {
    if action is Skip {
        Ok(None)
    } else {
        match decoded_control(action, member) {
            None => Err(PackageError::UndecodableControlArchive),
            Some(archive) => first_md5sums(tar_entries_of(archive)),
        }
    }
}

/// The `md5sums` data of the first entry named `md5sums` among the entries
/// of a tar archive, given as tar's reader yields them.
pub fn find_md5sums(entries: Vec<Option<(Vec<u8>, Vec<u8>)>>) -> (res: Result<
    Option<Vec<u8>>,
    PackageError,
>)
    ensures
        match first_md5sums(entry_views(entries@)) {
            Ok(None) => res == Ok::<Option<Vec<u8>>, PackageError>(None),
            Ok(Some(d)) => res matches Ok(Some(v)) && v@ == d,
            Err(e) => res == Err::<Option<Vec<u8>>, PackageError>(e),
        },
{
    let ghost all = entry_views(entries@);
    let mut i: usize = 0;
    assert(all.skip(0) =~= all);
    while i < entries.len()
        invariant
            i <= entries.len(),
            all == entry_views(entries@),
            first_md5sums(all) == first_md5sums(all.skip(i as int)),
        decreases entries.len() - i,
    {
        assert(all.skip(i as int)[0] == all[i as int]);
        assert(all.skip(i as int).drop_first() =~= all.skip(i + 1));
        assert(all[i as int] == match entries@[i as int] {
            Some((p, d)) => Some((p@, d@)),
            None => None::<(Seq<u8>, Seq<u8>)>,
        });
        match &entries[i] {
            None => {
                return Err(PackageError::MalformedControlArchive);
            },
            Some(e) => {
                if is_md5sums_path(e.0.as_slice()) {
                    let data = e.1.clone();
                    assert(data@ =~= e.1@);
                    return Ok(Some(data));
                }
            },
        }
        i += 1;
    }
    assert(all.skip(i as int).len() == 0);
    Ok(None)
}

/// The `md5sums` data in a member of a package archive, whose action
/// `ar_entry_action` gave: decompressed as that action says, then the data
/// of the first entry of its tar archive named `md5sums`.
pub fn md5sums_in_control(action: ArEntryAction, member: &[u8]) -> (res: Result<
    Option<Vec<u8>>,
    PackageError,
>)
    ensures
        match control_md5sums(action, member@) {
            Ok(None) => res == Ok::<Option<Vec<u8>>, PackageError>(None),
            Ok(Some(d)) => res matches Ok(Some(v)) && v@ == d,
            Err(e) => res == Err::<Option<Vec<u8>>, PackageError>(e),
        },
{
    let entries = match action {
        ArEntryAction::Skip => {
            return Ok(None);
        },
        ArEntryAction::Plain => tar_entries(member),
        ArEntryAction::Zstd => match unzstd(member) {
            None => {
                return Err(PackageError::UndecodableControlArchive);
            },
            Some(archive) => tar_entries(archive.as_slice()),
        },
        ArEntryAction::Xz => match unxz(member) {
            None => {
                return Err(PackageError::UndecodableControlArchive);
            },
            Some(archive) => tar_entries(archive.as_slice()),
        },
        ArEntryAction::Gzip => match gunzip(member) {
            None => {
                return Err(PackageError::UndecodableControlArchive);
            },
            Some(archive) => tar_entries(archive.as_slice()),
        },
    };
    find_md5sums(entries)
}

/// What comparing a package's files with an `md5sums` text gives: the files
/// that failed and those that were missed, or the error for the text.
pub open spec fn md5sums_check(files: Seq<(Seq<char>, Seq<char>)>, data: Seq<u8>) -> Result<
    (Seq<Seq<char>>, Seq<Seq<char>>),
    PackageError,
> {
    if !vstd::utf8::valid_utf8(data) {
        Err(PackageError::NonUtf8Md5sums)
    } else {
        match md5sums_table(vstd::utf8::decode_utf8(data)) {
            None => Err(PackageError::MalformedMd5sumsLine),
            Some(t) => Ok((failed_files(files, t), missed_files(files, t))),
        }
    }
}

/// Verifies a package against one member of its archive: when the member is
/// the control archive and holds `md5sums`, the files that failed and those
/// that were missed; none when the member holds no `md5sums`.
pub fn verify_control_member(package: &Package, action: ArEntryAction, member: &[u8]) -> (res:
    Result<Option<(Vec<String>, Vec<String>)>, PackageError>)
    ensures
        match control_md5sums(action, member@) {
            Err(e) => res == Err::<Option<(Vec<String>, Vec<String>)>, PackageError>(e),
            Ok(None) => res == Ok::<Option<(Vec<String>, Vec<String>)>, PackageError>(None),
            Ok(Some(d)) => match md5sums_check(package@.files, d) {
                Err(e) => res == Err::<Option<(Vec<String>, Vec<String>)>, PackageError>(e),
                Ok(r) => res matches Ok(Some((f, m))) && strs(f@) == r.0 && strs(m@) == r.1,
            },
        },
{
    match md5sums_in_control(action, member) {
        Err(e) => Err(e),
        Ok(None) => Ok(None),
        Ok(Some(data)) => match check_md5sums(package, data.as_slice()) {
            Err(e) => Err(e),
            Ok(r) => Ok(Some(r)),
        },
    }
}

/// The one-line verdict on a package: `" <failed> failed, <missed> missed"`,
/// green when nothing failed and red otherwise.
pub fn summary_line(failed: usize, missed: usize) -> (res: String)
    ensures
        ({
            let msg = " "@ + crate::text::decimal(failed as nat) + " failed, "@
                + crate::text::decimal(missed as nat) + " missed"@;
            res@ == if failed == 0 {
                crate::color::green_text(msg)
            } else {
                crate::color::red_text(msg)
            }
        }),
{
    let mut msg = to_owned(" ");
    let a = crate::text::u64_decimal(failed as u64);
    push_str(&mut msg, a.as_str());
    push_str(&mut msg, " failed, ");
    let b = crate::text::u64_decimal(missed as u64);
    push_str(&mut msg, b.as_str());
    push_str(&mut msg, " missed");
    if failed == 0 {
        crate::color::green(msg.as_str())
    } else {
        crate::color::red(msg.as_str())
    }
}

/// The report line for a file that failed verification: `"  <path>: FAILED"`.
pub fn failed_file_line(path: &str) -> (res: String)
    ensures
        res@ == "  "@ + path@ + ": FAILED"@,
{
    let mut s = to_owned("  ");
    push_str(&mut s, path);
    push_str(&mut s, ": FAILED");
    s
}

// ---------------------------------------------------------------------------
// Laws
// ---------------------------------------------------------------------------

/// After a file's fingerprint is recorded, the file list gives back that
/// fingerprint for the file and the same as before for every other path, and
/// still lists no path twice.
pub proof fn law_recorded_fingerprint_is_read_back(
    files: Seq<(Seq<char>, Seq<char>)>,
    path: Seq<char>,
    hash: Seq<char>,
)
    requires
        file_paths(files).no_duplicates(),
    ensures
        lookup_last(insert_file(files, path, hash), path) == Some(hash),
        forall|q: Seq<char>|
            q != path ==> lookup_last(insert_file(files, path, hash), q) == lookup_last(files, q),
        file_paths(insert_file(files, path, hash)).no_duplicates(),
{
    lemma_first_index(file_paths(files), path);
    let k = first_index(file_paths(files), path);
    let r = insert_file(files, path, hash);
    if k < files.len() {
        assert(file_paths(r) =~= file_paths(files));
        lemma_lookup_unique(r, path, k);
        assert forall|q: Seq<char>| q != path implies lookup_last(r, q) == lookup_last(files, q) by {
            lemma_lookup_update_other(files, k, (path, hash), q);
        }
    } else {
        assert(file_paths(r) =~= file_paths(files).push(path));
        assert(r.drop_last() =~= files);
        assert forall|q: Seq<char>| q != path implies lookup_last(r, q) == lookup_last(files, q) by {
            assert(r.last().0 == path);
        }
    }
}

/// In a table with no path twice, the entry at `k` is the one a lookup of its path finds.
proof fn lemma_lookup_unique(t: Seq<(Seq<char>, Seq<char>)>, p: Seq<char>, k: int)
    requires
        file_paths(t).no_duplicates(),
        0 <= k < t.len(),
        t[k].0 == p,
    ensures
        lookup_last(t, p) == Some(t[k].1),
    decreases t.len(),
{
    if k < t.len() - 1 {
        assert(file_paths(t)[t.len() - 1] != file_paths(t)[k]);
        assert(file_paths(t.drop_last()) =~= file_paths(t).drop_last());
        lemma_lookup_unique(t.drop_last(), p, k);
    }
}

/// Replacing the entry at `k` by one with another path leaves lookups of
/// paths other than both unchanged.
proof fn lemma_lookup_update_other(
    t: Seq<(Seq<char>, Seq<char>)>,
    k: int,
    e: (Seq<char>, Seq<char>),
    q: Seq<char>,
)
    requires
        0 <= k < t.len(),
        t[k].0 == e.0,
        q != e.0,
    ensures
        lookup_last(t.update(k, e), q) == lookup_last(t, q),
    decreases t.len(),
{
    let u = t.update(k, e);
    if k < t.len() - 1 {
        assert(u.drop_last() =~= t.drop_last().update(k, e));
        lemma_lookup_update_other(t.drop_last(), k, e, q);
    } else {
        assert(u.drop_last() =~= t.drop_last());
    }
}

/// Every installed file is exactly one of: failed, missed, or matched; so the
/// three reports together are as long as the file list.
pub proof fn law_reports_partition_the_files(
    files: Seq<(Seq<char>, Seq<char>)>,
    table: Seq<(Seq<char>, Seq<char>)>,
)
    ensures
        failed_files(files, table).len() + missed_files(files, table).len() + matched_files(
            files,
            table,
        ).len() == files.len(),
    decreases files.len(),
{
    if files.len() > 0 {
        law_reports_partition_the_files(files.drop_last(), table);
    }
}

/// Every reported failed or missed file is one of the installed files.
pub proof fn lemma_reports_within_files(
    files: Seq<(Seq<char>, Seq<char>)>,
    table: Seq<(Seq<char>, Seq<char>)>,
)
    ensures
        forall|x: Seq<char>| #[trigger] failed_files(files, table).contains(x) ==> file_paths(files).contains(x),
        forall|x: Seq<char>| #[trigger] missed_files(files, table).contains(x) ==> file_paths(files).contains(x),
    decreases files.len(),
{
    if files.len() > 0 {
        let init = files.drop_last();
        let f = files.last();
        lemma_reports_within_files(init, table);
        let n = files.len() - 1;
        assert(file_paths(files)[n] == f.0);
        assert forall|x: Seq<char>| #[trigger] file_paths(init).contains(x) implies file_paths(files).contains(x) by {
            let i = choose|i: int| 0 <= i < file_paths(init).len() && file_paths(init)[i] == x;
            assert(file_paths(files)[i] == x);
        }
        let fi = failed_files(init, table);
        let mi = missed_files(init, table);
        assert forall|x: Seq<char>| #[trigger] failed_files(files, table).contains(x) implies file_paths(files).contains(x) by {
            if failed_files(files, table) != fi {
                let w = fi.push(f.0);
                assert(failed_files(files, table) == w);
                let j = choose|j: int| 0 <= j < w.len() && w[j] == x;
                if j < fi.len() {
                    assert(fi[j] == x);
                    assert(fi.contains(x));
                }
            }
        }
        assert forall|x: Seq<char>| #[trigger] missed_files(files, table).contains(x) implies file_paths(files).contains(x) by {
            if missed_files(files, table) != mi {
                let w = mi.push(f.0);
                assert(missed_files(files, table) == w);
                let j = choose|j: int| 0 <= j < w.len() && w[j] == x;
                if j < mi.len() {
                    assert(mi[j] == x);
                    assert(mi.contains(x));
                }
            }
        }
    }
}

/// For a file list that names no path twice, the failed and the missed files
/// are each listed once, no file is both, each is an installed file, and a
/// file whose fingerprint matches its `md5sums` entry is in neither; so the
/// two reports together are no longer than the file list.
pub proof fn law_failed_and_missed_are_distinct(
    files: Seq<(Seq<char>, Seq<char>)>,
    table: Seq<(Seq<char>, Seq<char>)>,
)
    requires
        file_paths(files).no_duplicates(),
    ensures
        failed_files(files, table).no_duplicates(),
        missed_files(files, table).no_duplicates(),
        forall|x: Seq<char>|
            !(#[trigger] failed_files(files, table).contains(x) && missed_files(files, table).contains(x)),
        forall|x: Seq<char>| #[trigger] failed_files(files, table).contains(x) ==> file_paths(files).contains(x),
        forall|x: Seq<char>| #[trigger] missed_files(files, table).contains(x) ==> file_paths(files).contains(x),
        forall|i: int|
            0 <= i < files.len() && lookup_last(table, #[trigger] files[i].0) == Some(files[i].1) ==> !failed_files(
                files,
                table,
            ).contains(files[i].0) && !missed_files(files, table).contains(files[i].0),
        failed_files(files, table).len() + missed_files(files, table).len() <= files.len(),
    decreases files.len(),
{
    law_reports_partition_the_files(files, table);
    lemma_reports_within_files(files, table);
    if files.len() > 0 {
        let init = files.drop_last();
        let f = files.last();
        let n = files.len() - 1;
        assert(file_paths(init) =~= file_paths(files).drop_last());
        law_failed_and_missed_are_distinct(init, table);
        lemma_reports_within_files(init, table);
        let fi = failed_files(init, table);
        let mi = missed_files(init, table);
        let ff = failed_files(files, table);
        let mf = missed_files(files, table);
        // the last path is not among the earlier ones, so not in their reports
        assert(!file_paths(init).contains(f.0)) by {
            if file_paths(init).contains(f.0) {
                let i = choose|i: int| 0 <= i < file_paths(init).len() && file_paths(init)[i] == f.0;
                assert(file_paths(files)[i] == file_paths(files)[n]);
            }
        }
        assert(!fi.contains(f.0));
        assert(!mi.contains(f.0));
        // each report is the earlier one, possibly with the last path pushed
        assert(ff == fi || ff == fi.push(f.0));
        assert(mf == mi || mf == mi.push(f.0));
        assert(ff == fi || mf == mi);
        assert forall|x: Seq<char>| #[trigger] ff.contains(x) implies fi.contains(x) || x == f.0 by {
            if ff != fi {
                let j = choose|j: int| 0 <= j < ff.len() && ff[j] == x;
                if j < fi.len() {
                    assert(fi[j] == x);
                }
            }
        }
        assert forall|x: Seq<char>| #[trigger] mf.contains(x) implies mi.contains(x) || x == f.0 by {
            if mf != mi {
                let j = choose|j: int| 0 <= j < mf.len() && mf[j] == x;
                if j < mi.len() {
                    assert(mi[j] == x);
                }
            }
        }
        assert(ff.no_duplicates()) by {
            if ff != fi {
                assert forall|i: int, j: int| 0 <= i < ff.len() && 0 <= j < ff.len() && i != j implies ff[i] != ff[j] by {
                    if i < fi.len() && j < fi.len() {
                        assert(ff[i] == fi[i] && ff[j] == fi[j]);
                    } else if i < fi.len() {
                        assert(ff[i] == fi[i]);
                        assert(fi.contains(fi[i]));
                    } else {
                        assert(ff[j] == fi[j]);
                        assert(fi.contains(fi[j]));
                    }
                }
            }
        }
        assert(mf.no_duplicates()) by {
            if mf != mi {
                assert forall|i: int, j: int| 0 <= i < mf.len() && 0 <= j < mf.len() && i != j implies mf[i] != mf[j] by {
                    if i < mi.len() && j < mi.len() {
                        assert(mf[i] == mi[i] && mf[j] == mi[j]);
                    } else if i < mi.len() {
                        assert(mf[i] == mi[i]);
                        assert(mi.contains(mi[i]));
                    } else {
                        assert(mf[j] == mi[j]);
                        assert(mi.contains(mi[j]));
                    }
                }
            }
        }
        assert forall|x: Seq<char>| !(#[trigger] ff.contains(x) && mf.contains(x)) by {
            if ff.contains(x) && mf.contains(x) {
                if x == f.0 {
                    if ff == fi {
                        assert(fi.contains(x));
                    } else {
                        assert(mf == mi);
                        assert(mi.contains(x));
                    }
                } else {
                    assert(fi.contains(x) && mi.contains(x));
                }
            }
        }
        assert forall|i: int|
            0 <= i < files.len() && lookup_last(table, #[trigger] files[i].0) == Some(files[i].1) implies !ff.contains(
            files[i].0) && !mf.contains(files[i].0) by {
            if i < n {
                assert(init[i] == files[i]);
                assert(lookup_last(table, init[i].0) == Some(init[i].1));
                assert(file_paths(files)[i] != file_paths(files)[n]);
            } else {
                assert(files[i] == f);
            }
        }
    }
}

/// A package whose recorded fingerprints are exactly what its `md5sums`
/// gives reports no failed and no missed file.
pub proof fn law_agreeing_package_reports_nothing(
    files: Seq<(Seq<char>, Seq<char>)>,
    table: Seq<(Seq<char>, Seq<char>)>,
)
    requires
        forall|i: int| 0 <= i < files.len() ==> lookup_last(table, #[trigger] files[i].0) == Some(
            files[i].1,
        ),
    ensures
        failed_files(files, table).len() == 0,
        missed_files(files, table).len() == 0,
    decreases files.len(),
{
    if files.len() > 0 {
        assert(lookup_last(table, files[files.len() - 1].0) == Some(files[files.len() - 1].1));
        law_agreeing_package_reports_nothing(files.drop_last(), table);
    }
}

/// Taking configuration files out of a file list that lists no path twice
/// leaves a list that lists no path twice.
pub proof fn law_conffile_removal_keeps_paths_distinct(
    files: Seq<(Seq<char>, Seq<char>)>,
    paths: Seq<Seq<char>>,
)
    requires
        file_paths(files).no_duplicates(),
    ensures
        file_paths(without_paths(files, paths)).no_duplicates(),
    decreases files.len(),
{
    if files.len() > 0 {
        let dl = files.drop_last();
        assert(file_paths(dl) =~= file_paths(files).drop_last());
        law_conffile_removal_keeps_paths_distinct(dl, paths);
        law_conffiles_are_taken_out(dl, paths);
        let init = without_paths(dl, paths);
        let last = files.last();
        if !paths.contains(last.0) {
            let r = init.push(last);
            assert forall|i: int, j: int|
                0 <= i < r.len() && 0 <= j < r.len() && i != j implies file_paths(r)[i] != file_paths(
                r,
            )[j] by {
                if i < init.len() && j < init.len() {
                    assert(file_paths(r)[i] == file_paths(init)[i]);
                    assert(file_paths(r)[j] == file_paths(init)[j]);
                } else {
                    let k = if i < init.len() { i } else { j };
                    assert(init.contains(init[k]));
                    assert(dl.contains(init[k]));
                    let m = choose|m: int| 0 <= m < dl.len() && dl[m] == init[k];
                    assert(file_paths(files)[m] != file_paths(files)[files.len() - 1]);
                }
            }
        }
    }
}

/// Taking configuration files out of a file list keeps exactly the entries
/// whose path is not a configuration file.
pub proof fn law_conffiles_are_taken_out(
    files: Seq<(Seq<char>, Seq<char>)>,
    paths: Seq<Seq<char>>,
)
    ensures
        forall|e: (Seq<char>, Seq<char>)|
            without_paths(files, paths).contains(e) <==> files.contains(e) && !paths.contains(e.0),
    decreases files.len(),
{
    if files.len() > 0 {
        law_conffiles_are_taken_out(files.drop_last(), paths);
        let init = without_paths(files.drop_last(), paths);
        let last = files.last();
        let dl = files.drop_last();
        assert forall|e: (Seq<char>, Seq<char>)|
            without_paths(files, paths).contains(e) <==> files.contains(e) && !paths.contains(
                e.0,
            ) by {
            if files.contains(e) && !paths.contains(e.0) {
                let i = choose|i: int| 0 <= i < files.len() && files[i] == e;
                if i < files.len() - 1 {
                    assert(dl[i] == e);
                    assert(dl.contains(e));
                    assert(init.contains(e));
                    let j = choose|j: int| 0 <= j < init.len() && init[j] == e;
                    if !paths.contains(last.0) {
                        assert(init.push(last)[j] == e);
                    }
                } else {
                    assert(init.push(last).last() == e);
                }
            }
            if without_paths(files, paths).contains(e) {
                if !paths.contains(last.0) {
                    let w = init.push(last);
                    let j = choose|j: int| 0 <= j < w.len() && w[j] == e;
                    if j < init.len() {
                        assert(init[j] == e);
                        assert(init.contains(e));
                        assert(dl.contains(e));
                        let i = choose|i: int| 0 <= i < dl.len() && dl[i] == e;
                        assert(files[i] == e);
                    } else {
                        assert(files[files.len() - 1] == e);
                    }
                } else {
                    assert(init.contains(e));
                    assert(dl.contains(e));
                    let i = choose|i: int| 0 <= i < dl.len() && dl[i] == e;
                    assert(files[i] == e);
                }
            }
        }
    }
}

} // verus!

verus! {

/// Reading an apt list changes only download locations: the packages keep
/// their number, their order, their names and their files.
pub proof fn law_apt_lines_change_only_locations(
    pkgs: Seq<PackageView>,
    current: Seq<char>,
    base: Seq<char>,
    lines: Seq<Seq<char>>,
)
    ensures
        apt_lines(pkgs, current, base, lines).len() == pkgs.len(),
        forall|i: int|
            0 <= i < pkgs.len() ==> (#[trigger] apt_lines(pkgs, current, base, lines)[i]).name
                == pkgs[i].name && apt_lines(pkgs, current, base, lines)[i].files == pkgs[i].files,
    decreases lines.len(),
{
    let out = apt_lines(pkgs, current, base, lines);
    if lines.len() == 0 {
        assert(out == pkgs);
    } else {
        let line = lines[0];
        let rest = lines.drop_first();
        if starts_with(line, "Package: "@) {
            assert(out == apt_lines(pkgs, line.skip(9), base, rest));
            law_apt_lines_change_only_locations(pkgs, line.skip(9), base, rest);
        } else if starts_with(line, "Filename: "@) {
            let next = set_url(pkgs, current, base + "/"@ + line.skip(10));
            assert(out == apt_lines(next, current, base, rest));
            lemma_first_index(package_names(pkgs), current);
            assert(next.len() == pkgs.len());
            assert forall|i: int| 0 <= i < pkgs.len() implies #[trigger] next[i].name == pkgs[i].name
                && next[i].files == pkgs[i].files by {}
            law_apt_lines_change_only_locations(next, current, base, rest);
        } else {
            assert(out == apt_lines(pkgs, current, base, rest));
            law_apt_lines_change_only_locations(pkgs, current, base, rest);
        }
    }
}

} // verus!

verus! {

/// The base URL of an apt list is `https://<host>/` followed by the path,
/// where the host is the first `_`-separated component of the file name, and
/// splitting the path at `'/'` gives back exactly the components between the
/// host and the first `dists` (for a file name whose first `dists` is its
/// second component, the path is empty). The components must hold no `'/'`.
pub proof fn law_base_url_round_trip(name: Seq<char>, k: int)
    requires
        1 <= k < split_on(name, '_').len(),
        split_on(name, '_')[k] == "dists"@,
        forall|m: int| 0 <= m < k ==> split_on(name, '_')[m] != "dists"@,
        forall|m: int| 1 <= m < k ==> !(#[trigger] split_on(name, '_')[m]).contains('/'),
    ensures
        ({
            let parts = split_on(name, '_');
            let head = "https://"@ + parts[0] + "/"@;
            base_url_of(name) matches Some(u) && head.len() <= u.len() && u.take(head.len() as int)
                == head && (if k == 1 {
                u.len() == head.len()
            } else {
                split_on(u.skip(head.len() as int), '/') == parts.subrange(1, k)
            })
        }),
{
    let parts = split_on(name, '_');
    lemma_first_index(parts, "dists"@);
    let f = first_index(parts, "dists"@);
    if f > k {
        assert(parts[k] == "dists"@);
    }
    assert(f == k);
    reveal_strlit("/");
    let head = "https://"@ + parts[0] + "/"@;
    let path = join(parts.subrange(1, k), "/"@);
    let u = head + path;
    assert(base_url_of(name) == Some(u));
    assert(u.take(head.len() as int) =~= head);
    assert(u.skip(head.len() as int) =~= path);
    if k >= 2 {
        let ps = parts.subrange(1, k);
        assert forall|i: int| 0 <= i < ps.len() implies !(#[trigger] ps[i]).contains('/') by {
            assert(ps[i] == parts[i + 1]);
        }
        assert("/"@ =~= seq!['/']);
        crate::text::law_join_then_split(ps, '/');
    } else {
        assert(parts.subrange(1, k).len() == 0);
    }
}

} // verus!

verus! {

/// Package `j` is the first one in the list with the given name.
pub open spec fn first_named(pkgs: Seq<PackageView>, j: int, name: Seq<char>) -> bool {
    &&& 0 <= j < pkgs.len()
    &&& pkgs[j].name == name
    &&& forall|m: int| 0 <= m < j ==> pkgs[m].name != name
}

/// Some recorded set of configuration files names package `j` (as the first
/// package with its name) and holds `path`.
pub open spec fn recorded_conffile(
    pkgs: Seq<PackageView>,
    confs: Seq<(Seq<char>, Seq<Seq<char>>)>,
    j: int,
    path: Seq<char>,
) -> bool {
    exists|i: int|
        #![trigger confs[i]]
        0 <= i < confs.len() && first_named(pkgs, j, confs[i].0) && confs[i].1.contains(path)
}

/// The package that `first_index` finds for a name is the first one with it.
proof fn lemma_first_named(pkgs: Seq<PackageView>, name: Seq<char>, j: int)
    ensures
        first_named(pkgs, j, name) <==> (j == first_index(package_names(pkgs), name) && j
            < pkgs.len()),
{
    let names = package_names(pkgs);
    lemma_first_index(names, name);
    let f = first_index(names, name);
    if first_named(pkgs, j, name) {
        if f < j {
            assert(names[f] == pkgs[f].name);
        }
        if j < f {
            assert(names[j] == pkgs[j].name);
        }
    }
    if j == f && j < pkgs.len() {
        assert(names[j] == pkgs[j].name);
        assert forall|m: int| 0 <= m < j implies pkgs[m].name != name by {
            assert(names[m] == pkgs[m].name);
        }
    }
}

/// Keeping what a predicate admits of a sequence that it admits whole keeps it all.
proof fn lemma_filter_all<A>(s: Seq<A>, p: spec_fn(A) -> bool)
    requires
        forall|i: int| 0 <= i < s.len() ==> p(#[trigger] s[i]),
    ensures
        s.filter(p) == s,
    decreases s.len(),
{
    reveal(Seq::filter);
    if s.len() > 0 {
        lemma_filter_all(s.drop_last(), p);
        assert(s.drop_last().push(s.last()) =~= s);
    }
}

/// Filtering twice is filtering once by both predicates.
proof fn lemma_filter_twice<A>(s: Seq<A>, p: spec_fn(A) -> bool, q: spec_fn(A) -> bool)
    ensures
        s.filter(p).filter(q) == s.filter(|x: A| p(x) && q(x)),
    decreases s.len(),
{
    reveal(Seq::filter);
    if s.len() > 0 {
        lemma_filter_twice(s.drop_last(), p, q);
        let f = s.drop_last().filter(p);
        if p(s.last()) {
            assert(f.push(s.last()).drop_last() =~= f);
        }
    }
}

/// Taking paths out of a file list keeps, in order, the files whose path is
/// not among them.
proof fn lemma_without_paths_filter(files: Seq<(Seq<char>, Seq<char>)>, paths: Seq<Seq<char>>)
    ensures
        without_paths(files, paths) == files.filter(
            |e: (Seq<char>, Seq<char>)| !paths.contains(e.0),
        ),
    decreases files.len(),
{
    reveal(Seq::filter);
    if files.len() > 0 {
        lemma_without_paths_filter(files.drop_last(), paths);
    }
}

/// Taking out every recorded set of configuration files, not only the
/// first: the packages keep their number, names and download locations, and
/// each package keeps, in their order, exactly those of its files whose path
/// is in no set recorded for it (a set counts for the first package with its
/// name).
pub proof fn law_every_conffile_set_is_taken_out(
    pkgs: Seq<PackageView>,
    confs: Seq<(Seq<char>, Seq<Seq<char>>)>,
)
    ensures
        strip_all_conffiles(pkgs, confs).len() == pkgs.len(),
        forall|j: int|
            0 <= j < pkgs.len() ==> (#[trigger] strip_all_conffiles(pkgs, confs)[j]).name
                == pkgs[j].name && strip_all_conffiles(pkgs, confs)[j].download_url
                == pkgs[j].download_url && strip_all_conffiles(pkgs, confs)[j].files
                == pkgs[j].files.filter(
                |e: (Seq<char>, Seq<char>)| !recorded_conffile(pkgs, confs, j, e.0),
            ),
        forall|j: int, e: (Seq<char>, Seq<char>)|
            0 <= j < pkgs.len() ==> (#[trigger] strip_all_conffiles(pkgs, confs)[j].files.contains(e)
                <==> pkgs[j].files.contains(e) && !recorded_conffile(pkgs, confs, j, e.0)),
    decreases confs.len(),
{
    let r = strip_all_conffiles(pkgs, confs);
    if confs.len() == 0 {
        assert(r == pkgs);
        assert forall|j: int| 0 <= j < pkgs.len() implies pkgs[j].files == pkgs[j].files.filter(
            |e: (Seq<char>, Seq<char>)| !recorded_conffile(pkgs, confs, j, e.0),
        ) by {
            lemma_filter_all(
                pkgs[j].files,
                |e: (Seq<char>, Seq<char>)| !recorded_conffile(pkgs, confs, j, e.0),
            );
        }
    } else {
        let c0 = confs[0];
        let rest = confs.drop_first();
        let p1 = strip_conffiles(pkgs, c0.0, c0.1);
        assert(r == strip_all_conffiles(p1, rest));
        law_every_conffile_set_is_taken_out(p1, rest);
        let names = package_names(pkgs);
        lemma_first_index(names, c0.0);
        assert(p1.len() == pkgs.len());
        assert forall|j: int| 0 <= j < pkgs.len() implies #[trigger] p1[j].name == pkgs[j].name
            && p1[j].download_url == pkgs[j].download_url by {}
        assert forall|j: int, n: Seq<char>|
            0 <= j < pkgs.len() implies first_named(p1, j, n) == first_named(pkgs, j, n) by {
            if first_named(p1, j, n) {
                assert forall|m: int| 0 <= m < j implies pkgs[m].name != n by {
                    assert(p1[m].name == pkgs[m].name);
                }
            }
            if first_named(pkgs, j, n) {
                assert forall|m: int| 0 <= m < j implies p1[m].name != n by {
                    assert(p1[m].name == pkgs[m].name);
                }
            }
        }
        // a recorded set is the first one or one of the rest
        assert forall|j: int, path: Seq<char>| 0 <= j < pkgs.len() implies recorded_conffile(
            pkgs,
            confs,
            j,
            path,
        ) == ((first_named(pkgs, j, c0.0) && c0.1.contains(path)) || recorded_conffile(
            p1,
            rest,
            j,
            path,
        )) by {
            if recorded_conffile(pkgs, confs, j, path) {
                let i = choose|i: int|
                    #![trigger confs[i]]
                    0 <= i < confs.len() && first_named(pkgs, j, confs[i].0) && confs[i].1.contains(
                        path,
                    );
                if i > 0 {
                    assert(rest[i - 1] == confs[i]);
                    assert(recorded_conffile(p1, rest, j, path));
                }
            }
            if recorded_conffile(p1, rest, j, path) {
                let i = choose|i: int|
                    #![trigger rest[i]]
                    0 <= i < rest.len() && first_named(p1, j, rest[i].0) && rest[i].1.contains(path);
                assert(confs[i + 1] == rest[i]);
                assert(recorded_conffile(pkgs, confs, j, path));
            }
            if first_named(pkgs, j, c0.0) && c0.1.contains(path) {
                assert(confs[0] == c0);
                assert(recorded_conffile(pkgs, confs, j, path));
            }
        }
        assert forall|j: int| 0 <= j < pkgs.len() implies r[j].files == pkgs[j].files.filter(
            |e: (Seq<char>, Seq<char>)| !recorded_conffile(pkgs, confs, j, e.0),
        ) by {
            lemma_first_named(pkgs, c0.0, j);
            let p0 = |e: (Seq<char>, Seq<char>)| !(first_named(pkgs, j, c0.0) && c0.1.contains(e.0));
            let pr = |e: (Seq<char>, Seq<char>)| !recorded_conffile(p1, rest, j, e.0);
            if first_named(pkgs, j, c0.0) {
                lemma_without_paths_filter(pkgs[j].files, c0.1);
                assert(p0 =~= |e: (Seq<char>, Seq<char>)| !c0.1.contains(e.0));
            } else {
                assert(p1[j] == pkgs[j]);
                lemma_filter_all(pkgs[j].files, p0);
            }
            assert(p1[j].files == pkgs[j].files.filter(p0));
            lemma_filter_twice(pkgs[j].files, p0, pr);
            assert((|x: (Seq<char>, Seq<char>)| p0(x) && pr(x)) =~= (|e: (Seq<char>, Seq<char>)|
                !recorded_conffile(pkgs, confs, j, e.0)));
        }
        assert forall|j: int, e: (Seq<char>, Seq<char>)|
            0 <= j < pkgs.len() implies (#[trigger] r[j].files.contains(e) <==> pkgs[j].files.contains(
            e,
        ) && !recorded_conffile(pkgs, confs, j, e.0)) by {
            lemma_first_named(pkgs, c0.0, j);
            law_conffiles_are_taken_out(pkgs[j].files, c0.1);
            assert(p1[j].files.contains(e) <==> pkgs[j].files.contains(e) && !(first_named(
                pkgs,
                j,
                c0.0,
            ) && c0.1.contains(e.0)));
        }
    }
}

} // verus!
