//! File-name handling on raw path bytes, following the rules of
//! `std::path::Path` on Unix.
use vstd::prelude::*;
use crate::text::split_on;

verus! {

/// The byte of the path separator, `'/'`.
pub open spec fn slash() -> u8 {
    0x2f
}

/// The component `"."`.
pub open spec fn cur_dir() -> Seq<u8> {
    seq![0x2eu8]
}

/// The component `".."`.
pub open spec fn parent_dir() -> Seq<u8> {
    seq![0x2eu8, 0x2eu8]
}

/// The last piece among `parts` that names something: neither empty (from a
/// repeated or trailing separator) nor `"."`.
pub open spec fn last_named(parts: Seq<Seq<u8>>) -> Option<Seq<u8>>
    decreases parts.len(),
{
    if parts.len() == 0 {
        None
    } else if parts.last().len() == 0 || parts.last() == cur_dir() {
        last_named(parts.drop_last())
    } else {
        Some(parts.last())
    }
}

/// The final component of a path, when it is a normal one (`Path::file_name`):
/// none for a path that ends in `".."` or has no named component.
pub open spec fn file_name_of(path: Seq<u8>) -> Option<Seq<u8>> {
    match last_named(split_on(path, slash())) {
        Some(c) => if c == parent_dir() {
            None
        } else {
            Some(c)
        },
        None => None,
    }
}

/// The pieces of `s` between occurrences of `sep`.
pub fn split_bytes(s: &[u8], sep: u8) -> (res: Vec<Vec<u8>>)
    ensures
        res@.map_values(|v: Vec<u8>| v@) == split_on(s@, sep),
{
    let mut pieces: Vec<Vec<u8>> = Vec::new();
    let mut cur: Vec<u8> = Vec::new();
    let mut i: usize = 0;
    while i < s.len()
        invariant
            i <= s.len(),
            pieces@.map_values(|v: Vec<u8>| v@).push(cur@) == split_on(s@.take(i as int), sep),
        decreases s.len() - i,
    {
        let ghost prev = s@.take(i as int);
        let ghost old_pieces = pieces@.map_values(|v: Vec<u8>| v@);
        let ghost old_cur = cur@;
        assert(s@.take(i + 1).drop_last() == prev);
        assert(s@.take(i + 1).last() == s@[i as int]);
        proof {
            crate::text::lemma_split_on_nonempty(prev, sep);
        }
        if s[i] == sep {
            let done = cur;
            pieces.push(done);
            cur = Vec::new();
            assert(pieces@.map_values(|v: Vec<u8>| v@) =~= old_pieces.push(old_cur));
        } else {
            cur.push(s[i]);
            assert(old_pieces.push(old_cur).update(old_pieces.len() as int, old_cur.push(s@[i as int]))
                =~= old_pieces.push(cur@));
        }
        assert(pieces@.map_values(|v: Vec<u8>| v@).push(cur@) =~= split_on(s@.take(i + 1), sep));
        i += 1;
    }
    assert(s@.take(s.len() as int) == s@);
    let ghost old_pieces = pieces@.map_values(|v: Vec<u8>| v@);
    let ghost last = cur@;
    pieces.push(cur);
    assert(pieces@.map_values(|v: Vec<u8>| v@) =~= old_pieces.push(last));
    pieces
}

/// Whether two byte strings are equal.
pub fn bytes_eq(a: &[u8], b: &[u8]) -> (res: bool)
    ensures
        res == (a@ == b@),
{
    if a.len() != b.len() {
        return false;
    }
    let mut i: usize = 0;
    while i < a.len()
        invariant
            a.len() == b.len(),
            i <= a.len(),
            forall|j: int| 0 <= j < i ==> a@[j] == b@[j],
        decreases a.len() - i,
    {
        if a[i] != b[i] {
            return false;
        }
        i += 1;
    }
    assert(a@ =~= b@);
    true
}

/// The final component of a path (`Path::file_name`).
pub fn file_name(path: &[u8]) -> (res: Option<Vec<u8>>)
    ensures
        res matches Some(v) ==> file_name_of(path@) == Some(v@),
        res is None ==> file_name_of(path@) is None,
{
    let parts = split_bytes(path, 0x2f);
    let ghost views = parts@.map_values(|v: Vec<u8>| v@);
    let dot: Vec<u8> = vec![0x2eu8];
    let dotdot: Vec<u8> = vec![0x2eu8, 0x2eu8];
    assert(dot@ == cur_dir());
    assert(dotdot@ == parent_dir());
    assert(views == split_on(path@, slash()));
    assert(views.take(parts.len() as int) =~= views);
    let mut k: usize = parts.len();
    while k > 0
        invariant
            k <= parts.len(),
            views == parts@.map_values(|v: Vec<u8>| v@),
            views == split_on(path@, slash()),
            last_named(views) == last_named(views.take(k as int)),
            dot@ == cur_dir(),
            dotdot@ == parent_dir(),
        decreases k,
    {
        let ghost pre = views.take(k as int);
        assert(pre.last() == parts@[k - 1]@);
        assert(pre.drop_last() == views.take(k - 1));
        if parts[k - 1].len() == 0 || bytes_eq(parts[k - 1].as_slice(), dot.as_slice()) {
            k -= 1;
        } else {
            assert(pre.last().len() != 0 && pre.last() != cur_dir());
            assert(last_named(views) == Some(parts@[k - 1]@));
            if bytes_eq(parts[k - 1].as_slice(), dotdot.as_slice()) {
                return None;
            }
            let mut out: Vec<u8> = Vec::new();
            let mut j: usize = 0;
            while j < parts[k - 1].len()
                invariant
                    0 < k <= parts.len(),
                    j <= parts@[k - 1]@.len(),
                    out@ == parts@[k - 1]@.take(j as int),
                decreases parts@[k - 1]@.len() - j,
            {
                out.push(parts[k - 1][j]);
                assert(parts@[k - 1]@.take(j + 1) == parts@[k - 1]@.take(j as int).push(
                    parts@[k - 1]@[j as int],
                ));
                j += 1;
            }
            assert(parts@[k - 1]@.take(j as int) == parts@[k - 1]@);
            return Some(out);
        }
    }
    assert(views.take(0) =~= Seq::<Seq<u8>>::empty());
    None
}

} // verus!
