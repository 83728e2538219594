//! Character-level text handling: splitting, trimming, joining and the
//! other small string operations that the audit steps are built from.
use vstd::prelude::*;

verus! {

// ---------------------------------------------------------------------------
// Views of string collections
// ---------------------------------------------------------------------------

/// The character sequences of a sequence of strings.
pub open spec fn strs(v: Seq<String>) -> Seq<Seq<char>> {
    v.map_values(|s: String| s@)
}

// ---------------------------------------------------------------------------
// Spec functions
// ---------------------------------------------------------------------------

/// The Unicode `White_Space` property, which `char::is_whitespace`, `str::trim`
/// and `str::split_whitespace` go by.
pub open spec fn is_ws(c: char) -> bool {
    ||| ('\u{9}' <= c && c <= '\u{d}')
    ||| c == ' '
    ||| c == '\u{85}'
    ||| c == '\u{a0}'
    ||| c == '\u{1680}'
    ||| ('\u{2000}' <= c && c <= '\u{200a}')
    ||| c == '\u{2028}'
    ||| c == '\u{2029}'
    ||| c == '\u{202f}'
    ||| c == '\u{205f}'
    ||| c == '\u{3000}'
}

/// `s` begins with `p`.
pub open spec fn starts_with(s: Seq<char>, p: Seq<char>) -> bool {
    p.len() <= s.len() && s.take(p.len() as int) == p
}

/// `s` ends with `p`.
pub open spec fn ends_with(s: Seq<char>, p: Seq<char>) -> bool {
    p.len() <= s.len() && s.skip(s.len() - p.len()) == p
}

/// `needle` occurs in `s` at position `i`.
pub open spec fn occurs_at(s: Seq<char>, needle: Seq<char>, i: int) -> bool {
    0 <= i && i + needle.len() <= s.len() && s.subrange(i, i + needle.len()) == needle
}

/// `needle` occurs somewhere in `s`.
pub open spec fn contains(s: Seq<char>, needle: Seq<char>) -> bool {
    exists|i: int| occurs_at(s, needle, i)
}

/// The pieces of `s` between the occurrences of `sep`, as `str::split` with a
/// `char` pattern gives them (and as a path splits at its separators).
pub open spec fn split_on<A>(s: Seq<A>, sep: A) -> Seq<Seq<A>>
    decreases s.len(),
{
    if s.len() == 0 {
        seq![Seq::<A>::empty()]
    } else {
        let init = split_on(s.drop_last(), sep);
        if s.last() == sep {
            init.push(Seq::<A>::empty())
        } else {
            init.update(init.len() - 1, init.last().push(s.last()))
        }
    }
}

/// The pieces joined with `sep` between them, as `join` on a slice of strings.
pub open spec fn join(parts: Seq<Seq<char>>, sep: Seq<char>) -> Seq<char>
    decreases parts.len(),
{
    if parts.len() == 0 {
        Seq::<char>::empty()
    } else if parts.len() == 1 {
        parts[0]
    } else {
        join(parts.drop_last(), sep) + sep + parts.last()
    }
}

/// The number of whitespace characters at the start of `s`.
pub open spec fn leading_ws(s: Seq<char>) -> nat
    decreases s.len(),
{
    if s.len() > 0 && is_ws(s[0]) {
        1 + leading_ws(s.drop_first())
    } else {
        0
    }
}

/// `s` without its trailing whitespace (`str::trim_end`).
pub open spec fn trim_end(s: Seq<char>) -> Seq<char>
    decreases s.len(),
{
    if s.len() > 0 && is_ws(s.last()) {
        trim_end(s.drop_last())
    } else {
        s
    }
}

/// `s` without leading and trailing whitespace (`str::trim`).
pub open spec fn trim(s: Seq<char>) -> Seq<char> {
    trim_end(s.skip(leading_ws(s) as int))
}

/// The maximal runs of non-whitespace characters of `s`, in order
/// (`str::split_whitespace`).
pub open spec fn words(s: Seq<char>) -> Seq<Seq<char>>
    decreases s.len(),
{
    if s.len() == 0 {
        Seq::<Seq<char>>::empty()
    } else {
        let init = words(s.drop_last());
        let c = s.last();
        if is_ws(c) {
            init
        } else if s.len() >= 2 && !is_ws(s[s.len() - 2]) {
            init.update(init.len() - 1, init.last().push(c))
        } else {
            init.push(seq![c])
        }
    }
}

/// `s` without one trailing carriage return.
pub open spec fn strip_cr(s: Seq<char>) -> Seq<char> {
    if s.len() > 0 && s.last() == '\r' {
        s.drop_last()
    } else {
        s
    }
}

/// The lines of `s` as `str::lines` gives them: split at `'\n'`, a `'\r'`
/// before a `'\n'` dropped, and no empty line after a final `'\n'`.
pub open spec fn lines(s: Seq<char>) -> Seq<Seq<char>> {
    let parts = split_on(s, '\n');
    let n = parts.len();
    let k: int = if parts[n - 1].len() == 0 {
        n - 1
    } else {
        n as int
    };
    Seq::new(k as nat, |i: int| if i < n - 1 { strip_cr(parts[i]) } else { parts[i] })
}

/// Every non-overlapping occurrence of `from` in `s`, scanned from the left,
/// replaced by `to` (`str::replace`); `from` is not empty.
pub open spec fn replace_all(s: Seq<char>, from: Seq<char>, to: Seq<char>) -> Seq<char>
    recommends
        from.len() > 0,
    decreases s.len(),
    when from.len() > 0
{
    if s.len() < from.len() {
        s
    } else if s.take(from.len() as int) == from {
        to + replace_all(s.skip(from.len() as int), from, to)
    } else {
        seq![s[0]] + replace_all(s.drop_first(), from, to)
    }
}

/// The ASCII digit of a number below ten.
pub open spec fn digit_char(d: nat) -> char {
    ((d + 48) as u8) as char
}

/// The decimal representation of `n`, without leading zeros.
pub open spec fn decimal(n: nat) -> Seq<char>
    decreases n,
{
    if n < 10 {
        seq![digit_char(n)]
    } else {
        decimal(n / 10).push(digit_char(n % 10))
    }
}

/// The decimal representation of a signed number, with `'-'` before a negative one.
pub open spec fn signed_decimal(n: int) -> Seq<char> {
    if n < 0 {
        seq!['-'] + decimal((-n) as nat)
    } else {
        decimal(n as nat)
    }
}

/// `s` followed by spaces up to `width` characters (`{:<width}`).
pub open spec fn pad_right(s: Seq<char>, width: nat) -> Seq<char> {
    if s.len() >= width {
        s
    } else {
        s + Seq::new((width - s.len()) as nat, |i: int| ' ')
    }
}

/// `s` repeated `n` times (`str::repeat`).
pub open spec fn repeat(s: Seq<char>, n: nat) -> Seq<char>
    decreases n,
{
    if n == 0 {
        Seq::<char>::empty()
    } else {
        repeat(s, (n - 1) as nat) + s
    }
}

/// The position of the first element of `s` equal to `x`, or `s.len()` when
/// there is none.
pub open spec fn first_index<A>(s: Seq<A>, x: A) -> int
    decreases s.len(),
{
    if s.len() == 0 {
        0
    } else if s[0] == x {
        0
    } else {
        1 + first_index(s.drop_first(), x)
    }
}

/// The position of the last element of `s` equal to `x`, or `-1` when there is none.
pub open spec fn last_index<A>(s: Seq<A>, x: A) -> int
    decreases s.len(),
{
    if s.len() == 0 {
        -1
    } else if s.last() == x {
        s.len() - 1
    } else {
        last_index(s.drop_last(), x)
    }
}

// ---------------------------------------------------------------------------
// Lemmas
// ---------------------------------------------------------------------------

/// `split_on` always yields at least one piece.
pub proof fn lemma_split_on_nonempty<A>(s: Seq<A>, sep: A)
    ensures
        split_on(s, sep).len() >= 1,
    decreases s.len(),
{
    if s.len() > 0 {
        lemma_split_on_nonempty(s.drop_last(), sep);
    }
}

/// `first_index` is the smallest position holding `x`.
pub proof fn lemma_first_index<A>(s: Seq<A>, x: A)
    ensures
        0 <= first_index(s, x) <= s.len(),
        forall|j: int| 0 <= j < first_index(s, x) ==> s[j] != x,
        first_index(s, x) < s.len() ==> s[first_index(s, x)] == x,
    decreases s.len(),
{
    if s.len() > 0 && s[0] != x {
        lemma_first_index(s.drop_first(), x);
        assert forall|j: int| 0 <= j < first_index(s, x) implies s[j] != x by {
            if j > 0 {
                assert(s[j] == s.drop_first()[j - 1]);
            }
        }
    }
}

/// `last_index` is the largest position holding `x`.
pub proof fn lemma_last_index<A>(s: Seq<A>, x: A)
    ensures
        -1 <= last_index(s, x) < s.len(),
        forall|j: int| last_index(s, x) < j < s.len() ==> s[j] != x,
        last_index(s, x) >= 0 ==> s[last_index(s, x)] == x,
    decreases s.len(),
{
    if s.len() > 0 && s.last() != x {
        lemma_last_index(s.drop_last(), x);
        assert forall|j: int| last_index(s, x) < j < s.len() implies s[j] != x by {
            if j < s.len() - 1 {
                assert(s[j] == s.drop_last()[j]);
            }
        }
    }
}

/// A string that ends with a non-whitespace character has at least one word.
pub proof fn lemma_words_nonempty(s: Seq<char>)
    requires
        s.len() > 0,
        !is_ws(s.last()),
    ensures
        words(s).len() > 0,
    decreases s.len(),
{
    if s.len() >= 2 && !is_ws(s[s.len() - 2]) {
        lemma_words_nonempty(s.drop_last());
    }
}

/// Joining the last piece extended by a character extends the join by it.
proof fn lemma_join_extend_last(parts: Seq<Seq<char>>, sep: Seq<char>, c: char)
    requires
        parts.len() >= 1,
    ensures
        join(parts.update(parts.len() - 1, parts.last().push(c)), sep) == join(parts, sep).push(c),
{
    let q = parts.update(parts.len() - 1, parts.last().push(c));
    if parts.len() >= 2 {
        assert(q.drop_last() =~= parts.drop_last());
    }
}

/// Splitting at a character and joining the pieces with it gives the text back.
pub proof fn law_split_then_join(s: Seq<char>, sep: char)
    ensures
        join(split_on(s, sep), seq![sep]) == s,
    decreases s.len(),
{
    if s.len() > 0 {
        let init = split_on(s.drop_last(), sep);
        law_split_then_join(s.drop_last(), sep);
        lemma_split_on_nonempty(s.drop_last(), sep);
        if s.last() == sep {
            assert(init.push(Seq::<char>::empty()).drop_last() =~= init);
            assert(s =~= s.drop_last() + seq![sep] + Seq::<char>::empty());
        } else {
            lemma_join_extend_last(init, seq![sep], s.last());
            assert(s =~= s.drop_last().push(s.last()));
        }
    }
}

/// A text without the separator splits into itself alone.
pub proof fn lemma_split_piece(b: Seq<char>, sep: char)
    requires
        !b.contains(sep),
    ensures
        split_on(b, sep) == seq![b],
    decreases b.len(),
{
    if b.len() == 0 {
        assert(b =~= Seq::<char>::empty());
    } else {
        let d = b.drop_last();
        assert(!d.contains(sep)) by {
            if d.contains(sep) {
                let i = choose|i: int| 0 <= i < d.len() && d[i] == sep;
                assert(b[i] == sep);
            }
        }
        lemma_split_piece(d, sep);
        if b[b.len() - 1] == sep {
            assert(b.contains(sep));
        }
        assert(d.push(b.last()) =~= b);
        assert(seq![d].update(0, d.push(b.last())) =~= seq![b]);
    }
}

/// Appending the separator and then a text without it adds that text as a
/// last piece.
pub proof fn lemma_split_append_piece(a: Seq<char>, sep: char, b: Seq<char>)
    requires
        !b.contains(sep),
    ensures
        split_on(a + seq![sep] + b, sep) == split_on(a, sep).push(b),
    decreases b.len(),
{
    let s = a + seq![sep] + b;
    if b.len() == 0 {
        assert(b =~= Seq::<char>::empty());
        assert(s =~= a.push(sep));
        assert(s.drop_last() =~= a);
    } else {
        let d = b.drop_last();
        assert(!d.contains(sep)) by {
            if d.contains(sep) {
                let i = choose|i: int| 0 <= i < d.len() && d[i] == sep;
                assert(b[i] == sep);
            }
        }
        lemma_split_append_piece(a, sep, d);
        assert(s.drop_last() =~= a + seq![sep] + d);
        assert(s.last() == b.last());
        if b[b.len() - 1] == sep {
            assert(b.contains(sep));
        }
        assert(d.push(b.last()) =~= b);
        let init = split_on(a, sep).push(d);
        assert(init.update(init.len() - 1, d.push(b.last())) =~= split_on(a, sep).push(b));
    }
}

/// Joining pieces that hold no separator and splitting the result at it
/// gives the pieces back.
pub proof fn law_join_then_split(parts: Seq<Seq<char>>, sep: char)
    requires
        parts.len() >= 1,
        forall|i: int| 0 <= i < parts.len() ==> !(#[trigger] parts[i]).contains(sep),
    ensures
        split_on(join(parts, seq![sep]), sep) == parts,
    decreases parts.len(),
{
    if parts.len() == 1 {
        lemma_split_piece(parts[0], sep);
        assert(seq![parts[0]] =~= parts);
    } else {
        let d = parts.drop_last();
        assert forall|i: int| 0 <= i < d.len() implies !(#[trigger] d[i]).contains(sep) by {
            assert(d[i] == parts[i]);
        }
        law_join_then_split(d, sep);
        assert(!parts[parts.len() - 1].contains(sep));
        lemma_split_append_piece(join(d, seq![sep]), sep, parts.last());
        assert(d.push(parts.last()) =~= parts);
    }
}

/// A padded column is as wide as asked, or the text itself when that is wider,
/// and begins with the text.
pub proof fn law_padded_width(s: Seq<char>, width: nat)
    ensures
        pad_right(s, width).len() == if s.len() >= width {
            s.len()
        } else {
            width
        },
        pad_right(s, width).take(s.len() as int) == s,
{
    assert(pad_right(s, width).take(s.len() as int) =~= s);
}

// ---------------------------------------------------------------------------
// Trusted std helpers
// ---------------------------------------------------------------------------

/// Appends one character to a string.
///
/// Trusted: `String::push`, whose documentation says that it appends the
/// given `char` to the end of the string.
#[verifier::external_body]
pub(crate) fn push_char(s: &mut String, c: char)
    ensures
        final(s)@ == old(s)@.push(c),
{
    s.push(c);
}

/// Decodes bytes as UTF-8.
///
/// Trusted: `std::str::from_utf8`, which by its documentation succeeds exactly
/// on valid UTF-8 and then gives the string those bytes encode.
#[verifier::external_body]
pub fn utf8_str(bytes: &[u8]) -> (res: Option<&str>)
    ensures
        res is Some <==> vstd::utf8::valid_utf8(bytes@),
        res matches Some(s) ==> s@ == vstd::utf8::decode_utf8(bytes@),
{
    std::str::from_utf8(bytes).ok()
}

// ---------------------------------------------------------------------------
// Executable functions
// ---------------------------------------------------------------------------

/// The characters of a string slice, in order.
pub fn chars_of(s: &str) -> (res: Vec<char>)
    ensures
        res@ == s@,
{
    broadcast use vstd::string::group_string_axioms;

    let mut res: Vec<char> = Vec::new();
    for c in it: s.chars()
        invariant
            res@ == it.seq().take(it.index() as int),
    {
        res.push(c);
    }
    res
}

/// The string made of the characters `v[from..to]`.
pub fn string_of(v: &Vec<char>, from: usize, to: usize) -> (res: String)
    requires
        from <= to <= v.len(),
    ensures
        res@ == v@.subrange(from as int, to as int),
{
    let mut res = String::new();
    let mut i = from;
    while i < to
        invariant
            from <= i <= to <= v.len(),
            res@ == v@.subrange(from as int, i as int),
        decreases to - i,
    {
        push_char(&mut res, v[i]);
        assert(v@.subrange(from as int, i + 1) == v@.subrange(from as int, i as int).push(v@[i as int]));
        i += 1;
    }
    res
}

/// Appends a string slice to a string.
pub fn push_str(s: &mut String, t: &str)
    ensures
        final(s)@ == old(s)@ + t@,
{
    let cs = chars_of(t);
    let mut i: usize = 0;
    while i < cs.len()
        invariant
            i <= cs.len(),
            cs@ == t@,
            s@ == old(s)@ + cs@.take(i as int),
        decreases cs.len() - i,
    {
        push_char(s, cs[i]);
        assert(cs@.take(i + 1) == cs@.take(i as int).push(cs@[i as int]));
        i += 1;
    }
    assert(cs@.take(cs.len() as int) == cs@);
}

/// A copy of a string slice as an owned string.
pub fn to_owned(t: &str) -> (res: String)
    ensures
        res@ == t@,
{
    let mut s = String::new();
    push_str(&mut s, t);
    s
}

/// Whether `c` is whitespace (`char::is_whitespace`).
pub fn is_whitespace(c: char) -> (res: bool)
    ensures
        res == is_ws(c),
{
    ('\u{9}' <= c && c <= '\u{d}') || c == ' ' || c == '\u{85}' || c == '\u{a0}' || c == '\u{1680}'
        || ('\u{2000}' <= c && c <= '\u{200a}') || c == '\u{2028}' || c == '\u{2029}' || c
        == '\u{202f}' || c == '\u{205f}' || c == '\u{3000}'
}

/// Whether two strings hold the same characters.
pub fn str_eq(a: &str, b: &str) -> (res: bool)
    ensures
        res == (a@ == b@),
{
    let x = chars_of(a);
    let y = chars_of(b);
    if x.len() != y.len() {
        return false;
    }
    let mut i: usize = 0;
    while i < x.len()
        invariant
            x@ == a@,
            y@ == b@,
            x.len() == y.len(),
            i <= x.len(),
            forall|j: int| 0 <= j < i ==> x@[j] == y@[j],
        decreases x.len() - i,
    {
        if x[i] != y[i] {
            return false;
        }
        i += 1;
    }
    assert(x@ =~= y@);
    true
}

/// The position of the first string in `v` equal to `s`, or `v.len()`.
pub fn position_of(v: &Vec<String>, s: &str) -> (res: usize)
    ensures
        res as int == first_index(strs(v@), s@),
{
    proof {
        lemma_first_index(strs(v@), s@);
    }
    let mut i: usize = 0;
    while i < v.len()
        invariant
            i <= v.len(),
            forall|j: int| 0 <= j < i ==> strs(v@)[j] != s@,
            0 <= first_index(strs(v@), s@) <= v.len(),
            forall|j: int| 0 <= j < first_index(strs(v@), s@) ==> strs(v@)[j] != s@,
            first_index(strs(v@), s@) < v.len() ==> strs(v@)[first_index(strs(v@), s@)] == s@,
        decreases v.len() - i,
    {
        if str_eq(v[i].as_str(), s) {
            assert(strs(v@)[i as int] == s@);
            return i;
        }
        i += 1;
    }
    i
}

/// Whether `needle` occurs in `hay` at position `at` (on character vectors).
fn occurs_at_exec(hay: &Vec<char>, needle: &Vec<char>, at: usize) -> (res: bool)
    ensures
        res == occurs_at(hay@, needle@, at as int),
{
    if needle.len() > hay.len() || at > hay.len() - needle.len() {
        return false;
    }
    let mut j: usize = 0;
    while j < needle.len()
        invariant
            at + needle.len() <= hay.len(),
            j <= needle.len(),
            forall|k: int| 0 <= k < j ==> hay@[at + k] == needle@[k],
        decreases needle.len() - j,
    {
        if hay[at + j] != needle[j] {
            assert(hay@.subrange(at as int, at + needle.len())[j as int] != needle@[j as int]);
            return false;
        }
        j += 1;
    }
    assert(hay@.subrange(at as int, at + needle.len()) =~= needle@);
    true
}

/// Whether `s` begins with `p` (`str::starts_with`).
pub fn has_prefix(s: &str, p: &str) -> (res: bool)
    ensures
        res == starts_with(s@, p@),
{
    let x = chars_of(s);
    let y = chars_of(p);
    let r = occurs_at_exec(&x, &y, 0);
    assert(x@.subrange(0, y@.len() as int) == x@.take(y@.len() as int));
    r
}

/// Whether `s` ends with `p` (`str::ends_with`).
pub fn has_suffix(s: &str, p: &str) -> (res: bool)
    ensures
        res == ends_with(s@, p@),
{
    let x = chars_of(s);
    let y = chars_of(p);
    if y.len() > x.len() {
        return false;
    }
    let r = occurs_at_exec(&x, &y, x.len() - y.len());
    assert(x@.subrange(x@.len() - y@.len(), x@.len() as int) == x@.skip(x@.len() - y@.len()));
    r
}

/// Whether `needle` occurs in `s` (`str::contains`).
pub fn has_substring(s: &str, needle: &str) -> (res: bool)
    ensures
        res == contains(s@, needle@),
{
    let x = chars_of(s);
    let y = chars_of(needle);
    if y.len() > x.len() {
        return false;
    }
    let last = x.len() - y.len();
    let mut i: usize = 0;
    loop
        invariant
            x@ == s@,
            y@ == needle@,
            y.len() <= x.len(),
            last == x.len() - y.len(),
            i <= last,
            forall|k: int| 0 <= k < i ==> !occurs_at(s@, needle@, k),
        ensures
            forall|k: int| 0 <= k <= last ==> !occurs_at(s@, needle@, k),
        decreases last - i,
    {
        if occurs_at_exec(&x, &y, i) {
            return true;
        }
        if i == last {
            break;
        }
        i += 1;
    }
    assert forall|k: int| !occurs_at(s@, needle@, k) by {
        if 0 <= k && k + needle@.len() <= s@.len() {
            assert(k <= last);
        }
    }
    false
}

/// The pieces of `s` between occurrences of `sep` (`str::split` with a `char`).
pub fn split(s: &str, sep: char) -> (res: Vec<String>)
    ensures
        strs(res@) == split_on(s@, sep),
{
    let cs = chars_of(s);
    let mut pieces: Vec<String> = Vec::new();
    let mut cur = String::new();
    let mut i: usize = 0;
    while i < cs.len()
        invariant
            cs@ == s@,
            i <= cs.len(),
            strs(pieces@).push(cur@) == split_on(cs@.take(i as int), sep),
        decreases cs.len() - i,
    {
        let ghost prev = cs@.take(i as int);
        assert(cs@.take(i + 1).drop_last() == prev);
        proof {
            lemma_split_on_nonempty(prev, sep);
        }
        if cs[i] == sep {
            let done = cur;
            pieces.push(done);
            cur = String::new();
            assert(strs(pieces@) == strs(pieces@).drop_last().push(done@));
        } else {
            push_char(&mut cur, cs[i]);
        }
        assert(strs(pieces@).push(cur@) =~= split_on(cs@.take(i + 1), sep));
        i += 1;
    }
    assert(cs@.take(cs.len() as int) == cs@);
    pieces.push(cur);
    assert(strs(pieces@) =~= strs(pieces@).drop_last().push(cur@));
    pieces
}

/// The strings joined with `sep` between them (`[String]::join`).
pub fn join_strings(parts: &Vec<String>, sep: &str) -> (res: String)
    ensures
        res@ == join(strs(parts@), sep@),
{
    let mut res = String::new();
    let mut i: usize = 0;
    while i < parts.len()
        invariant
            i <= parts.len(),
            res@ == join(strs(parts@).take(i as int), sep@),
        decreases parts.len() - i,
    {
        if i > 0 {
            push_str(&mut res, sep);
        }
        push_str(&mut res, parts[i].as_str());
        assert(strs(parts@).take(i + 1).drop_last() =~= strs(parts@).take(i as int));
        i += 1;
    }
    assert(strs(parts@).take(parts.len() as int) =~= strs(parts@));
    res
}

/// `s` without leading and trailing whitespace (`str::trim`).
pub fn trim_str(s: &str) -> (res: String)
    ensures
        res@ == trim(s@),
{
    let cs = chars_of(s);
    assert(s@.skip(0) == s@);
    let mut a: usize = 0;
    while a < cs.len() && is_whitespace(cs[a])
        invariant
            cs@ == s@,
            a <= cs.len(),
            leading_ws(s@) == a + leading_ws(s@.skip(a as int)),
        decreases cs.len() - a,
    {
        assert(s@.skip(a as int).drop_first() == s@.skip(a + 1));
        a += 1;
    }
    assert(leading_ws(s@.skip(a as int)) == 0);
    let mut b: usize = cs.len();
    while b > a && is_whitespace(cs[b - 1])
        invariant
            cs@ == s@,
            a <= b <= cs.len(),
            trim_end(s@.skip(a as int)) == trim_end(s@.subrange(a as int, b as int)),
        decreases b - a,
    {
        assert(s@.subrange(a as int, b as int).drop_last() == s@.subrange(a as int, b - 1));
        b -= 1;
    }
    assert(s@.skip(a as int) == s@.subrange(a as int, s@.len() as int));
    string_of(&cs, a, b)
}

/// The whitespace-separated words of `s` (`str::split_whitespace`).
pub fn split_words(s: &str) -> (res: Vec<String>)
    ensures
        strs(res@) == words(s@),
{
    let cs = chars_of(s);
    let mut done: Vec<String> = Vec::new();
    let mut cur = String::new();
    let mut i: usize = 0;
    while i < cs.len()
        invariant
            cs@ == s@,
            i <= cs.len(),
            cur@.len() > 0 ==> i > 0 && !is_ws(cs@[i - 1]),
            cur@.len() == 0 ==> (i == 0 || is_ws(cs@[i - 1])),
            (if cur@.len() > 0 { strs(done@).push(cur@) } else { strs(done@) }) == words(
                cs@.take(i as int),
            ),
        decreases cs.len() - i,
    {
        let c = cs[i];
        let ghost prefix = cs@.take(i + 1);
        let ghost old_done = strs(done@);
        let ghost old_cur = cur@;
        assert(prefix.drop_last() == cs@.take(i as int));
        assert(prefix.last() == c);
        if i > 0 {
            assert(prefix[prefix.len() - 2] == cs@[i - 1]);
        }
        if is_whitespace(c) {
            if !cur.as_str().is_empty() {
                let w = cur;
                done.push(w);
                cur = String::new();
                assert(strs(done@) =~= old_done.push(w@));
                assert(strs(done@) =~= words(prefix));
            } else {
                assert(strs(done@) =~= words(prefix));
            }
            assert(words(prefix) == words(cs@.take(i as int)));
        } else {
            if !cur.as_str().is_empty() {
                proof {
                    lemma_words_nonempty(cs@.take(i as int));
                }
                assert(words(prefix) == old_done.push(old_cur).update(
                    old_done.len() as int,
                    old_cur.push(c),
                ));
                assert(old_done.push(old_cur).update(old_done.len() as int, old_cur.push(c))
                    =~= old_done.push(old_cur.push(c)));
            } else {
                assert(words(prefix) == old_done.push(seq![c]));
                assert(old_cur.push(c) =~= seq![c]);
            }
            push_char(&mut cur, c);
            assert(cur@ =~= old_cur.push(c));
            assert(strs(done@).push(cur@) =~= words(prefix));
        }
        assert((if cur@.len() > 0 { strs(done@).push(cur@) } else { strs(done@) }) =~= words(
            prefix,
        ));
        i += 1;
    }
    assert(cs@.take(cs.len() as int) == cs@);
    if !cur.as_str().is_empty() {
        let w = cur;
        done.push(w);
        assert(strs(done@) =~= strs(done@).drop_last().push(w@));
    }
    done
}

/// The lines of `s` (`str::lines`).
pub fn split_lines(s: &str) -> (res: Vec<String>)
    ensures
        strs(res@) == lines(s@),
{
    let parts = split(s, '\n');
    proof {
        lemma_split_on_nonempty(s@, '\n');
    }
    let n = parts.len();
    let k = if parts[n - 1].as_str().is_empty() {
        n - 1
    } else {
        n
    };
    let mut res: Vec<String> = Vec::new();
    let mut i: usize = 0;
    while i < k
        invariant
            strs(parts@) == split_on(s@, '\n'),
            n == parts.len(),
            k <= n,
            i <= k,
            res@.len() == i,
            forall|j: int|
                0 <= j < i ==> #[trigger] res@[j]@ == (if j < n - 1 {
                    strip_cr(parts@[j]@)
                } else {
                    parts@[j]@
                }),
        decreases k - i,
    {
        let cs = chars_of(parts[i].as_str());
        let line = if i + 1 < n && cs.len() > 0 && cs[cs.len() - 1] == '\r' {
            string_of(&cs, 0, cs.len() - 1)
        } else {
            string_of(&cs, 0, cs.len())
        };
        assert(cs@.subrange(0, cs@.len() as int) == cs@);
        res.push(line);
        i += 1;
    }
    assert(strs(res@) =~= lines(s@));
    res
}

/// `s` with every occurrence of `from` replaced by `to` (`str::replace`).
pub(crate) fn replace_str(s: &str, from: &str, to: &str) -> (res: String)
    requires
        from@.len() > 0,
    ensures
        res@ == replace_all(s@, from@, to@),
{
    let cs = chars_of(s);
    let fs = chars_of(from);
    let mut res = String::new();
    assert(s@.skip(0) == s@);
    assert(res@ + replace_all(s@, from@, to@) =~= replace_all(s@, from@, to@));
    let mut i: usize = 0;
    while i < cs.len()
        invariant
            cs@ == s@,
            fs@ == from@,
            fs@.len() > 0,
            i <= cs.len(),
            replace_all(s@, from@, to@) == res@ + replace_all(s@.skip(i as int), from@, to@),
        decreases cs.len() - i,
    {
        let ghost rest = s@.skip(i as int);
        if fs.len() <= cs.len() - i && occurs_at_exec(&cs, &fs, i) {
            assert(rest.take(from@.len() as int) == s@.subrange(i as int, i + from@.len()));
            assert(rest.skip(from@.len() as int) == s@.skip(i + fs.len()));
            push_str(&mut res, to);
            i += fs.len();
        } else {
            if fs.len() <= cs.len() - i {
                assert(rest.take(from@.len() as int) == s@.subrange(i as int, i + from@.len()));
            }
            assert(rest.drop_first() == s@.skip(i + 1));
            assert(rest[0] == cs@[i as int]);
            push_char(&mut res, cs[i]);
            assert(res@ + replace_all(s@.skip(i + 1), from@, to@) =~= (res@.drop_last() + seq![
                rest[0],
            ]) + replace_all(rest.drop_first(), from@, to@));
            i += 1;
        }
    }
    assert(replace_all(s@.skip(i as int), from@, to@) =~= Seq::<char>::empty());
    res
}

/// The decimal representation of `n`.
pub fn u64_decimal(n: u64) -> (res: String)
    ensures
        res@ == decimal(n as nat),
{
    let mut digits: Vec<char> = Vec::new();
    let mut m = n;
    // digits holds the decimal of n below m's part, least significant first
    while m >= 10
        invariant
            decimal(n as nat) == decimal(m as nat) + digits@.reverse(),
        decreases m,
    {
        let d = m % 10;
        let c = ((d as u8) + 48u8) as char;
        assert(c == digit_char(d as nat));
        assert(decimal(m as nat) == decimal((m / 10) as nat).push(digit_char((m % 10) as nat)));
        digits.push(c);
        assert(digits@.reverse() =~= seq![c] + digits@.drop_last().reverse());
        m = m / 10;
    }
    let c = ((m as u8) + 48u8) as char;
    assert(c == digit_char(m as nat));
    digits.push(c);
    assert(digits@.reverse() =~= seq![c] + digits@.drop_last().reverse());
    let mut res = String::new();
    let mut i: usize = digits.len();
    while i > 0
        invariant
            i <= digits.len(),
            res@ == digits@.reverse().take(digits.len() - i),
        decreases i,
    {
        push_char(&mut res, digits[i - 1]);
        assert(digits@.reverse().take(digits.len() - i + 1) =~= digits@.reverse().take(
            digits.len() - i,
        ).push(digits@[i - 1]));
        i -= 1;
    }
    assert(digits@.reverse().take(digits.len() as int) == digits@.reverse());
    res
}

/// The decimal representation of a signed number.
pub fn i64_decimal(n: i64) -> (res: String)
    ensures
        res@ == signed_decimal(n as int),
{
    if n < 0 {
        let m: u64 = if n == i64::MIN {
            9223372036854775808u64
        } else {
            (-n) as u64
        };
        let mut s = String::new();
        push_char(&mut s, '-');
        let d = u64_decimal(m);
        push_str(&mut s, d.as_str());
        s
    } else {
        u64_decimal(n as u64)
    }
}

/// `s` padded with spaces on the right to `width` characters (`{:<width}`).
pub fn pad_to(s: &str, width: usize) -> (res: String)
    ensures
        res@ == pad_right(s@, width as nat),
{
    let mut res = to_owned(s);
    let n = chars_of(s).len();
    if n < width {
        let mut k: usize = n;
        while k < width
            invariant
                n == s@.len(),
                n <= k <= width,
                res@ == s@ + Seq::new((k - n) as nat, |i: int| ' '),
            decreases width - k,
        {
            push_char(&mut res, ' ');
            assert(res@ =~= s@ + Seq::new((k + 1 - n) as nat, |i: int| ' '));
            k += 1;
        }
    }
    res
}

/// `s` repeated `n` times (`str::repeat`).
pub fn repeat_str(s: &str, n: usize) -> (res: String)
    ensures
        res@ == repeat(s@, n as nat),
{
    let mut res = String::new();
    let mut k: usize = 0;
    while k < n
        invariant
            k <= n,
            res@ == repeat(s@, k as nat),
        decreases n - k,
    {
        push_str(&mut res, s);
        k += 1;
    }
    res
}

} // verus!
