//! Reading the VHS1 text form back into a manifest.

use vstd::prelude::*;
use crate::manifest::{
    lemma_sort_of_sorted, sorted_by_path, entry_line, entry_lines, format_line, manifest_text, stably_sorted, title_line, EntryView,
    Manifest, ManifestEntry,
};
use crate::number::{
    decimal, hex16, lemma_decimal_roundtrip, lemma_decimal_value, lemma_hex16_roundtrip, parse_u64,
    parse_unsigned, push_decimal,
};
use crate::text::{chars_of, is_ws, string_from_range, text_of_utf8, trim, trim_end, trim_range};
use vstd::utf8::{
    char_is_scalar, char_u32_cast, decode_utf8, decode_utf8_encode_utf8, encode_scalar, encode_utf8,
    encode_utf8_decode_utf8, encode_utf8_valid_utf8, has_width_1_encoding, has_width_2_encoding,
    has_width_3_encoding, last_continuation_byte, leading_byte_width_1, leading_byte_width_2,
    leading_byte_width_3, leading_byte_width_4, second_last_continuation_byte,
    third_last_continuation_byte, valid_utf8, valid_utf8_concat,
};

verus! {

/// Why a manifest text was refused.
#[derive(Debug)]
pub enum ParseError {
    /// The first field of the line (given whole) is not `VHS1`.
    BadVersion(String),
    /// The line (number, text) has fewer than four `|`-separated fields.
    BadLine(usize, String),
    /// The size field (line number, field) is not a number.
    BadSize(usize, String),
    /// The hash field (line number, field) is not a hexadecimal number.
    BadHash(usize, String),
    /// The path field of the line (number) is empty.
    EmptyPath(usize),
}

/// What a `ParseError` says.
pub enum ParseErrorView {
    BadVersion(Seq<char>),
    BadLine(nat, Seq<char>),
    BadSize(nat, Seq<char>),
    BadHash(nat, Seq<char>),
    EmptyPath(nat),
}

impl View for ParseError {
    type V = ParseErrorView;

    open spec fn view(&self) -> ParseErrorView {
        match self {
            ParseError::BadVersion(l) => ParseErrorView::BadVersion(l@),
            ParseError::BadLine(n, l) => ParseErrorView::BadLine(*n as nat, l@),
            ParseError::BadSize(n, s) => ParseErrorView::BadSize(*n as nat, s@),
            ParseError::BadHash(n, s) => ParseErrorView::BadHash(*n as nat, s@),
            ParseError::EmptyPath(n) => ParseErrorView::EmptyPath(*n as nat),
        }
    }
}

// ---------------------------------------------------------------------------
// The format, as specification
// ---------------------------------------------------------------------------

/// The lines of `t`: the pieces between newline characters, in order (one
/// empty line for empty text).
pub open spec fn split_lines(t: Seq<char>) -> Seq<Seq<char>>
    decreases t.len(),
{
    if t.len() == 0 {
        seq![seq![]]
    } else {
        let r = split_lines(t.drop_last());
        if t.last() == '\n' {
            r.push(seq![])
        } else {
            r.update(r.len() - 1, r.last().push(t.last()))
        }
    }
}

/// The index of the first `|` in `s`, or its length if it has none.
pub open spec fn first_bar(s: Seq<char>) -> int
    decreases s.len(),
{
    if s.len() == 0 {
        0
    } else if s[0] == '|' {
        0
    } else {
        1 + first_bar(s.drop_first())
    }
}

/// `s` cut at its first `|`: what comes before and what comes after.
pub open spec fn split_field(s: Seq<char>) -> Option<(Seq<char>, Seq<char>)> {
    let k = first_bar(s);
    if k < s.len() {
        Some((s.take(k), s.skip(k + 1)))
    } else {
        None
    }
}

/// `splitn(4, '|')` when it yields four fields: the text before the first,
/// second and third `|`, and the rest.
pub open spec fn split4(s: Seq<char>) -> Option<(Seq<char>, Seq<char>, Seq<char>, Seq<char>)> {
    match split_field(s) {
        Some((a, r1)) => match split_field(r1) {
            Some((b, r2)) => match split_field(r2) {
                Some((c, d)) => Some((a, b, c, d)),
                None => None,
            },
            None => None,
        },
        None => None,
    }
}

/// The version tag of the format.
pub open spec fn version_tag() -> Seq<char> {
    seq!['V', 'H', 'S', '1']
}

/// A trimmed line that holds no entry: blank, or a `#` comment.
pub open spec fn is_skipped(t: Seq<char>) -> bool {
    t.len() == 0 || t[0] == '#'
}

/// The entry that trimmed line `t`, number `n`, holds, or why it holds none.
pub open spec fn parse_entry_line(t: Seq<char>, n: nat) -> Result<EntryView, ParseErrorView> {
    match split4(t) {
        None => Err(ParseErrorView::BadLine(n, t)),
        Some((v, p, sz, h)) => if v != version_tag() {
            Err(ParseErrorView::BadVersion(t))
        } else if p.len() == 0 {
            Err(ParseErrorView::EmptyPath(n))
        } else {
            match parse_unsigned(sz, 10) {
                None => Err(ParseErrorView::BadSize(n, sz)),
                Some(size) => match parse_unsigned(h, 16) {
                    None => Err(ParseErrorView::BadHash(n, h)),
                    Some(hash) => Ok(EntryView { path: p, size, hash }),
                },
            }
        },
    }
}

/// The entries of the lines `ls`, in order, line `i` numbered `i + 1`; or
/// the refusal of the first line that holds a malformed entry.
pub open spec fn parse_lines(ls: Seq<Seq<char>>) -> Result<Seq<EntryView>, ParseErrorView>
    decreases ls.len(),
{
    if ls.len() == 0 {
        Ok(seq![])
    } else {
        match parse_lines(ls.drop_last()) {
            Err(e) => Err(e),
            Ok(es) => {
                let t = trim(ls.last());
                if is_skipped(t) {
                    Ok(es)
                } else {
                    match parse_entry_line(t, ls.len()) {
                        Ok(e) => Ok(es.push(e)),
                        Err(e) => Err(e),
                    }
                }
            },
        }
    }
}

/// The entries of a manifest text in the order of its lines, or the
/// refusal of its first malformed line.
pub open spec fn text_entries(text: Seq<char>) -> Result<Seq<EntryView>, ParseErrorView> {
    parse_lines(split_lines(text))
}

// ---------------------------------------------------------------------------
// Parsing
// ---------------------------------------------------------------------------

pub proof fn lemma_split_lines_nonempty(t: Seq<char>)
    ensures
        split_lines(t).len() >= 1,
    decreases t.len(),
{
    if t.len() > 0 {
        lemma_split_lines_nonempty(t.drop_last());
    }
}

/// `first_bar` is the first index holding `|`.
pub proof fn lemma_first_bar(s: Seq<char>, k: int)
    requires
        0 <= k <= s.len(),
        forall|j: int| 0 <= j < k ==> s[j] != '|',
        k == s.len() || s[k] == '|',
    ensures
        first_bar(s) == k,
    decreases k,
{
    if k > 0 {
        lemma_first_bar(s.drop_first(), k - 1);
    }
}

/// The index of the first `|` in `cs[lo..hi]`, or `hi`.
fn find_bar(cs: &Vec<char>, lo: usize, hi: usize) -> (k: usize)
    requires
        lo <= hi <= cs@.len(),
    ensures
        lo <= k <= hi,
        first_bar(cs@.subrange(lo as int, hi as int)) == k - lo,
{
    let mut k = lo;
    while k < hi && cs[k] != '|'
        invariant
            lo <= k <= hi <= cs@.len(),
            forall|j: int| lo <= j < k ==> cs@[j] != '|',
        decreases hi - k,
    {
        k = k + 1;
    }
    proof {
        lemma_first_bar(cs@.subrange(lo as int, hi as int), k - lo);
    }
    k
}

/// Reads line `n`, the characters `cs[lo..hi]`: no entry for a blank or
/// comment line, else its entry or why it is malformed.
fn parse_line(cs: &Vec<char>, lo: usize, hi: usize, n: usize) -> (r: Result<
    Option<ManifestEntry>,
    ParseError,
>)
    requires
        lo <= hi <= cs@.len(),
    ensures
        ({
            let t = trim(cs@.subrange(lo as int, hi as int));
            if is_skipped(t) {
                r matches Ok(None)
            } else {
                match parse_entry_line(t, n as nat) {
                    Ok(e) => r matches Ok(Some(x)) && x@ == e,
                    Err(e) => r matches Err(x) && x@ == e,
                }
            }
        }),
{
    let (a, b) = trim_range(cs, lo, hi);
    let ghost t = cs@.subrange(a as int, b as int);
    if a == b || cs[a] == '#' {
        return Ok(None);
    }
    let k1 = find_bar(cs, a, b);
    if k1 == b {
        return Err(ParseError::BadLine(n, string_from_range(cs, a, b)));
    }
    assert(t.skip(k1 - a + 1) =~= cs@.subrange(k1 + 1, b as int));
    assert(t.take(k1 - a) =~= cs@.subrange(a as int, k1 as int));
    let k2 = find_bar(cs, k1 + 1, b);
    if k2 == b {
        return Err(ParseError::BadLine(n, string_from_range(cs, a, b)));
    }
    let ghost r1 = cs@.subrange(k1 + 1, b as int);
    assert(r1.skip(k2 - k1) =~= cs@.subrange(k2 + 1, b as int));
    assert(r1.take(k2 - k1 - 1) =~= cs@.subrange(k1 + 1, k2 as int));
    let k3 = find_bar(cs, k2 + 1, b);
    if k3 == b {
        return Err(ParseError::BadLine(n, string_from_range(cs, a, b)));
    }
    let ghost r2 = cs@.subrange(k2 + 1, b as int);
    assert(r2.skip(k3 - k2) =~= cs@.subrange(k3 + 1, b as int));
    assert(r2.take(k3 - k2 - 1) =~= cs@.subrange(k2 + 1, k3 as int));
    let ghost v = cs@.subrange(a as int, k1 as int);
    if !(k1 - a == 4 && cs[a] == 'V' && cs[a + 1] == 'H' && cs[a + 2] == 'S' && cs[a + 3] == '1') {
        assert(v != version_tag()) by {
            if v == version_tag() {
                assert(v[0] == 'V' && v[1] == 'H' && v[2] == 'S' && v[3] == '1');
            }
        }
        return Err(ParseError::BadVersion(string_from_range(cs, a, b)));
    }
    assert(v =~= version_tag());
    if k2 == k1 + 1 {
        return Err(ParseError::EmptyPath(n));
    }
    let size = match parse_u64(cs, k2 + 1, k3, 10) {
        Some(s) => s,
        None => {
            return Err(ParseError::BadSize(n, string_from_range(cs, k2 + 1, k3)));
        },
    };
    let hash = match parse_u64(cs, k3 + 1, b, 16) {
        Some(h) => h,
        None => {
            return Err(ParseError::BadHash(n, string_from_range(cs, k3 + 1, b)));
        },
    };
    Ok(Some(ManifestEntry { path: string_from_range(cs, k1 + 1, k2), size, hash }))
}

/// Parses a manifest text. Blank lines and lines starting with `#` (after
/// trimming whitespace) are skipped; every other line must be an entry
/// `VHS1|path|size|hash`. The entries come back sorted by path.
pub fn parse_manifest(text: &str) -> (r: Result<Manifest, ParseError>)
    ensures
        match text_entries(text@) {
            Ok(es) => r matches Ok(m) && stably_sorted(m@, es),
            Err(e) => r matches Err(x) && x@ == e,
        },
{
    let cs = chars_of(text);
    let mut m = Manifest::new();
    let mut line_start: usize = 0;
    let mut line_count: usize = 0;
    let ghost mut done: Seq<Seq<char>> = seq![];
    let mut i: usize = 0;
    assert(cs@.take(0) =~= Seq::<char>::empty());
    assert(split_lines(cs@.take(0)) =~= done.push(cs@.subrange(0, 0)));
    while i < cs.len()
        invariant
            line_count <= line_start <= i <= cs@.len(),
            cs@ == text@,
            done.len() == line_count,
            split_lines(cs@.take(i as int)) == done.push(cs@.subrange(line_start as int, i as int)),
            parse_lines(done) == Ok::<Seq<EntryView>, ParseErrorView>(m@),
        decreases cs@.len() - i,
    {
        let ghost prev = cs@.take(i as int);
        assert(cs@.take(i + 1).drop_last() =~= prev);
        if cs[i] == '\n' {
            let r = parse_line(&cs, line_start, i, line_count + 1);
            let ghost line = cs@.subrange(line_start as int, i as int);
            proof {
                let nd = done.push(line);
                assert(nd.drop_last() =~= done);
            }
            match r {
                Err(e) => {
                    proof {
                        let nd = done.push(line);
                        assert(cs@.take(i + 1).last() == '\n');
                        assert(split_lines(cs@.take(i + 1)) == nd.push(seq![]));
                        lemma_split_lines_concat(cs@.take(i + 1), cs@.skip(i + 1));
                        assert(cs@.take(i + 1) + cs@.skip(i + 1) =~= text@);
                        assert(nd.push(seq![]).drop_last() =~= nd);
                        lemma_parse_lines_error_persists(nd, split_lines(cs@.skip(i + 1)));
                    }
                    return Err(e);
                },
                Ok(None) => {},
                Ok(Some(entry)) => {
                    m.push(entry);
                },
            }
            proof {
                done = done.push(line);
            }
            assert(cs@.take(i + 1).last() == '\n');
            assert(cs@.subrange(i + 1, i + 1) =~= Seq::<char>::empty());
            assert(split_lines(cs@.take(i + 1)) == split_lines(prev).push(seq![]));
            assert(split_lines(cs@.take(i + 1)) =~= done.push(cs@.subrange(i + 1, i + 1)));
            line_count = line_count + 1;
            line_start = i + 1;
        } else {
            assert(cs@.subrange(line_start as int, i + 1) =~= cs@.subrange(
                line_start as int,
                i as int,
            ).push(cs@[i as int]));
        }
        i = i + 1;
    }
    assert(cs@.take(i as int) =~= cs@);
    let ghost line = cs@.subrange(line_start as int, i as int);
    let ghost all = done.push(line);
    assert(all.drop_last() =~= done);
    if line_start < cs.len() {
        match parse_line(&cs, line_start, cs.len(), line_count + 1) {
            Err(e) => {
                return Err(e);
            },
            Ok(None) => {},
            Ok(Some(entry)) => {
                m.push(entry);
            },
        }
    } else {
        assert(line =~= Seq::<char>::empty());
        assert(trim(line) =~= Seq::<char>::empty());
    }
    m.sort();
    Ok(m)
}

/// A refusal of the first lines is the refusal of all of them.
proof fn lemma_parse_lines_error_persists(a: Seq<Seq<char>>, b: Seq<Seq<char>>)
    requires
        parse_lines(a) is Err,
    ensures
        parse_lines(a + b) == parse_lines(a),
    decreases b.len(),
{
    if b.len() == 0 {
        assert(a + b =~= a);
    } else {
        lemma_parse_lines_error_persists(a, b.drop_last());
        assert((a + b).drop_last() =~= a + b.drop_last());
    }
}

/// The lines of a text that continues after a newline: the lines before
/// the newline, then the lines of the rest.
pub proof fn lemma_split_lines_concat(p: Seq<char>, q: Seq<char>)
    requires
        p.len() > 0,
        p.last() == '\n',
    ensures
        split_lines(p + q) == split_lines(p).drop_last() + split_lines(q),
    decreases q.len(),
{
    lemma_split_lines_nonempty(p);
    if q.len() == 0 {
        assert(p + q =~= p);
        assert(p.drop_last() + seq!['\n'] =~= p);
        assert(split_lines(p) == split_lines(p.drop_last()).push(seq![]));
        assert(split_lines(p) =~= split_lines(p).drop_last() + split_lines(q));
    } else {
        lemma_split_lines_concat(p, q.drop_last());
        lemma_split_lines_nonempty(q.drop_last());
        assert((p + q).drop_last() =~= p + q.drop_last());
        assert((p + q).last() == q.last());
        let a = split_lines(p).drop_last();
        let b = split_lines(q.drop_last());
        if q.last() == '\n' {
            assert((a + b).push(seq![]) =~= a + b.push(seq![]));
        } else {
            let c = q.last();
            assert((a + b).update((a + b).len() - 1, (a + b).last().push(c)) =~= a + b.update(
                b.len() - 1,
                b.last().push(c),
            ));
        }
    }
}

// ---------------------------------------------------------------------------
// Reading the bytes of a manifest file
// ---------------------------------------------------------------------------

/// Why the bytes of a manifest file were refused.
#[derive(Debug)]
pub enum ReadError {
    /// A line that comes before any malformed one is not UTF-8.
    NotUtf8,
    /// A line is malformed.
    Parse(ParseError),
}

/// What a `ReadError` says.
pub enum ReadErrorView {
    NotUtf8,
    Parse(ParseErrorView),
}

impl View for ReadError {
    type V = ReadErrorView;

    open spec fn view(&self) -> ReadErrorView {
        match self {
            ReadError::NotUtf8 => ReadErrorView::NotUtf8,
            ReadError::Parse(e) => ReadErrorView::Parse(e@),
        }
    }
}

/// The lines of the bytes `b`: the pieces between newline bytes, in order
/// (one empty line for no bytes).
pub open spec fn split_byte_lines(b: Seq<u8>) -> Seq<Seq<u8>>
    decreases b.len(),
{
    if b.len() == 0 {
        seq![seq![]]
    } else {
        let r = split_byte_lines(b.drop_last());
        if b.last() == 10u8 {
            r.push(seq![])
        } else {
            r.update(r.len() - 1, r.last().push(b.last()))
        }
    }
}

/// How many lines of `ls` come before the first one that is not UTF-8 (all
/// of them when each one is).
pub open spec fn utf8_lines(ls: Seq<Seq<u8>>) -> nat
    decreases ls.len(),
{
    if ls.len() == 0 || !valid_utf8(ls[0]) {
        0
    } else {
        1 + utf8_lines(ls.drop_first())
    }
}

/// The text of each line.
pub open spec fn decode_lines(ls: Seq<Seq<u8>>) -> Seq<Seq<char>> {
    ls.map_values(|l: Seq<u8>| decode_utf8(l))
}

/// What the bytes of a manifest file hold. Their lines are read in turn up
/// to the first one that is not UTF-8: the first malformed line among those
/// read is refused; failing that, a line that is not UTF-8 is; failing
/// that, the entries of all lines, in order.
pub open spec fn bytes_entries(b: Seq<u8>) -> Result<Seq<EntryView>, ReadErrorView> {
    let ls = split_byte_lines(b);
    let k = utf8_lines(ls);
    match parse_lines(decode_lines(ls.take(k as int))) {
        Err(e) => Err(ReadErrorView::Parse(e)),
        Ok(es) => if k < ls.len() {
            Err(ReadErrorView::NotUtf8)
        } else {
            Ok(es)
        },
    }
}

pub proof fn lemma_split_byte_lines_nonempty(b: Seq<u8>)
    ensures
        split_byte_lines(b).len() >= 1,
    decreases b.len(),
{
    if b.len() > 0 {
        lemma_split_byte_lines_nonempty(b.drop_last());
    }
}

/// The lines of bytes that continue after a newline: the lines before the
/// newline, then the lines of the rest.
pub proof fn lemma_split_byte_lines_concat(p: Seq<u8>, q: Seq<u8>)
    requires
        p.len() > 0,
        p.last() == 10u8,
    ensures
        split_byte_lines(p + q) == split_byte_lines(p).drop_last() + split_byte_lines(q),
    decreases q.len(),
{
    lemma_split_byte_lines_nonempty(p);
    if q.len() == 0 {
        assert(p + q =~= p);
        assert(split_byte_lines(p) == split_byte_lines(p.drop_last()).push(seq![]));
        assert(split_byte_lines(p) =~= split_byte_lines(p).drop_last() + split_byte_lines(q));
    } else {
        lemma_split_byte_lines_concat(p, q.drop_last());
        lemma_split_byte_lines_nonempty(q.drop_last());
        assert((p + q).drop_last() =~= p + q.drop_last());
        assert((p + q).last() == q.last());
        let a = split_byte_lines(p).drop_last();
        let b = split_byte_lines(q.drop_last());
        if q.last() == 10u8 {
            assert((a + b).push(seq![]) =~= a + b.push(seq![]));
        } else {
            let c = q.last();
            assert((a + b).update((a + b).len() - 1, (a + b).last().push(c)) =~= a + b.update(
                b.len() - 1,
                b.last().push(c),
            ));
        }
    }
}

/// `utf8_lines` counts the lines before the first that is not UTF-8.
pub proof fn lemma_utf8_lines(ls: Seq<Seq<u8>>)
    ensures
        utf8_lines(ls) <= ls.len(),
        forall|j: int| 0 <= j < utf8_lines(ls) ==> valid_utf8(#[trigger] ls[j]),
        utf8_lines(ls) < ls.len() ==> !valid_utf8(ls[utf8_lines(ls) as int]),
    decreases ls.len(),
{
    if ls.len() > 0 && valid_utf8(ls[0]) {
        let rest = ls.drop_first();
        lemma_utf8_lines(rest);
        assert forall|j: int| 0 <= j < utf8_lines(ls) implies valid_utf8(#[trigger] ls[j]) by {
            if j > 0 {
                assert(ls[j] == rest[j - 1]);
            }
        }
        if utf8_lines(ls) < ls.len() {
            assert(ls[utf8_lines(ls) as int] == rest[utf8_lines(rest) as int]);
        }
    }
}

/// Where the first `k` lines are UTF-8 and line `k` is not, `k` lines are
/// read.
proof fn lemma_utf8_lines_stop(ls: Seq<Seq<u8>>, k: int)
    requires
        0 <= k < ls.len(),
        forall|j: int| 0 <= j < k ==> valid_utf8(#[trigger] ls[j]),
        !valid_utf8(ls[k]),
    ensures
        utf8_lines(ls) == k,
{
    lemma_utf8_lines(ls);
    if utf8_lines(ls) < k {
        assert(valid_utf8(ls[utf8_lines(ls) as int]));
    }
}

/// Line `n`, from its bytes: nothing when they are not UTF-8, else what
/// `parse_line` says of its text.
fn read_line(line: &[u8], n: usize) -> (r: Option<Result<Option<ManifestEntry>, ParseError>>)
    ensures
        r is Some <==> valid_utf8(line@),
        r matches Some(x) ==> ({
            let t = trim(decode_utf8(line@));
            if is_skipped(t) {
                x matches Ok(None)
            } else {
                match parse_entry_line(t, n as nat) {
                    Ok(e) => x matches Ok(Some(y)) && y@ == e,
                    Err(e) => x matches Err(y) && y@ == e,
                }
            }
        }),
{
    match text_of_utf8(line) {
        None => None,
        Some(s) => {
            let cs = chars_of(s);
            proof {
                encode_utf8_decode_utf8(s@);
            }
            assert(cs@.subrange(0, cs@.len() as int) =~= decode_utf8(line@));
            Some(parse_line(&cs, 0, cs.len(), n))
        },
    }
}

/// Reads a manifest from the bytes of its file. Lines are split at newline
/// bytes and read in turn; a line that is not UTF-8 stops the reading and
/// is refused, unless a line read before it was malformed. Otherwise as
/// `parse_manifest`: the entries come back sorted by path.
pub fn parse_manifest_bytes(bytes: &[u8]) -> (r: Result<Manifest, ReadError>)
    ensures
        match bytes_entries(bytes@) {
            Ok(es) => r matches Ok(m) && stably_sorted(m@, es),
            Err(e) => r matches Err(x) && x@ == e,
        },
{
    let mut m = Manifest::new();
    let mut line: Vec<u8> = Vec::new();
    let mut line_start: usize = 0;
    let mut line_count: usize = 0;
    let ghost mut done: Seq<Seq<u8>> = seq![];
    let mut i: usize = 0;
    assert(bytes@.take(0) =~= Seq::<u8>::empty());
    assert(split_byte_lines(bytes@.take(0)) =~= done.push(bytes@.subrange(0, 0)));
    assert(decode_lines(done) =~= Seq::<Seq<char>>::empty());
    while i < bytes.len()
        invariant
            line_count <= line_start <= i <= bytes@.len(),
            done.len() == line_count,
            line@ == bytes@.subrange(line_start as int, i as int),
            split_byte_lines(bytes@.take(i as int)) == done.push(line@),
            forall|j: int| 0 <= j < done.len() ==> valid_utf8(#[trigger] done[j]),
            parse_lines(decode_lines(done)) == Ok::<Seq<EntryView>, ParseErrorView>(m@),
        decreases bytes@.len() - i,
    {
        let ghost prev = bytes@.take(i as int);
        assert(bytes@.take(i + 1).drop_last() =~= prev);
        if bytes[i] == 10u8 {
            let ghost l = line@;
            let ghost nd = done.push(l);
            let ghost ls = split_byte_lines(bytes@);
            proof {
                assert(split_byte_lines(bytes@.take(i + 1)) == nd.push(seq![]));
                lemma_split_byte_lines_concat(bytes@.take(i + 1), bytes@.skip(i + 1));
                assert(bytes@.take(i + 1) + bytes@.skip(i + 1) =~= bytes@);
                assert(nd.push(seq![]).drop_last() =~= nd);
                lemma_split_byte_lines_nonempty(bytes@.skip(i + 1));
                assert(ls == nd + split_byte_lines(bytes@.skip(i + 1)));
                assert(ls.take(line_count as int) =~= done);
                assert(ls[line_count as int] == l);
                assert(decode_lines(nd) =~= decode_lines(done).push(decode_utf8(l)));
                assert(decode_lines(nd).drop_last() =~= decode_lines(done));
            }
            match read_line(line.as_slice(), line_count + 1) {
                None => {
                    proof {
                        lemma_utf8_lines_stop(ls, line_count as int);
                    }
                    return Err(ReadError::NotUtf8);
                },
                Some(Err(e)) => {
                    proof {
                        lemma_utf8_lines(ls);
                        let k = utf8_lines(ls) as int;
                        if k <= line_count {
                            assert(ls[k] == nd[k]);
                            assert(valid_utf8(nd[k]));
                        }
                        assert(ls.take(k) =~= nd + ls.take(k).skip(line_count + 1));
                        assert(decode_lines(ls.take(k)) =~= decode_lines(nd) + decode_lines(
                            ls.take(k).skip(line_count + 1),
                        ));
                        lemma_parse_lines_error_persists(
                            decode_lines(nd),
                            decode_lines(ls.take(k).skip(line_count + 1)),
                        );
                    }
                    return Err(ReadError::Parse(e));
                },
                Some(Ok(entry)) => {
                    match entry {
                        Some(x) => {
                            m.push(x);
                        },
                        None => {},
                    }
                },
            }
            proof {
                done = nd;
            }
            line = Vec::new();
            line_count = line_count + 1;
            line_start = i + 1;
            assert(bytes@.take(i + 1).last() == 10u8);
            assert(line@ =~= bytes@.subrange(line_start as int, i + 1));
            assert(split_byte_lines(bytes@.take(i + 1)) =~= done.push(line@));
        } else {
            let ghost before = line@;
            line.push(bytes[i]);
            assert(line@ =~= bytes@.subrange(line_start as int, i + 1));
            assert(line@ =~= before.push(bytes@[i as int]));
        }
        i = i + 1;
    }
    assert(bytes@.take(i as int) =~= bytes@);
    let ghost l = line@;
    let ghost ls = split_byte_lines(bytes@);
    let ghost nd = done.push(l);
    assert(ls == nd);
    assert(ls.take(line_count as int) =~= done);
    assert(decode_lines(nd) =~= decode_lines(done).push(decode_utf8(l)));
    assert(decode_lines(nd).drop_last() =~= decode_lines(done));
    if line_start < bytes.len() {
        match read_line(line.as_slice(), line_count + 1) {
            None => {
                proof {
                    lemma_utf8_lines_stop(ls, line_count as int);
                }
                return Err(ReadError::NotUtf8);
            },
            Some(Err(e)) => {
                proof {
                    lemma_utf8_lines(ls);
                    if utf8_lines(ls) <= line_count {
                        assert(ls[utf8_lines(ls) as int] == nd[utf8_lines(ls) as int]);
                    }
                    assert(ls.take(ls.len() as int) =~= nd);
                }
                return Err(ReadError::Parse(e));
            },
            Some(Ok(entry)) => {
                match entry {
                    Some(x) => {
                        m.push(x);
                    },
                    None => {},
                }
            },
        }
    } else {
        assert(l =~= Seq::<u8>::empty());
        assert(decode_utf8(l) =~= Seq::<char>::empty());
        assert(trim(decode_utf8(l)) =~= Seq::<char>::empty());
    }
    proof {
        lemma_utf8_lines(ls);
        if utf8_lines(ls) <= line_count {
            assert(ls[utf8_lines(ls) as int] == nd[utf8_lines(ls) as int]);
        }
        assert(ls.take(ls.len() as int) =~= nd);
    }
    m.sort();
    Ok(m)
}

/// The encoding of two texts one after the other is their encodings one
/// after the other.
proof fn lemma_encode_utf8_concat(a: Seq<char>, b: Seq<char>)
    ensures
        encode_utf8(a + b) == encode_utf8(a) + encode_utf8(b),
    decreases a.len(),
{
    if a.len() == 0 {
        assert(a + b =~= b);
        assert(encode_utf8(a) + encode_utf8(b) =~= encode_utf8(b));
    } else {
        lemma_encode_utf8_concat(a.drop_first(), b);
        assert((a + b).drop_first() =~= a.drop_first() + b);
        assert((a + b)[0] == a[0]);
        assert(encode_utf8(a + b) =~= encode_scalar(a[0] as u32) + (encode_utf8(a.drop_first())
            + encode_utf8(b)));
    }
}

/// The encoding of a newline is the newline byte alone; that of any other
/// character holds no newline byte.
proof fn lemma_encode_char_newline(c: char)
    ensures
        c == '\n' ==> encode_utf8(seq![c]) == seq![10u8],
        c != '\n' ==> forall|j: int|
            0 <= j < encode_utf8(seq![c]).len() ==> #[trigger] encode_utf8(seq![c])[j] != 10u8,
{
    let u = c as u32;
    char_is_scalar(c);
    assert(seq![c].drop_first() =~= Seq::<char>::empty());
    assert(seq![c][0] == c);
    assert(encode_utf8(Seq::<char>::empty()) == Seq::<u8>::empty());
    assert(encode_utf8(seq![c]) == encode_scalar(u) + Seq::<u8>::empty());
    assert(encode_utf8(seq![c]) =~= encode_scalar(u));
    if has_width_1_encoding(u) {
        assert(leading_byte_width_1(u) as u32 == u) by (bit_vector)
            requires
                u <= 0x7f,
        ;
        char_u32_cast(c, u);
        char_u32_cast('\n', 10u32);
    } else if has_width_2_encoding(u) {
        assert(leading_byte_width_2(u) >= 0x80) by (bit_vector);
        assert(last_continuation_byte(u) >= 0x80) by (bit_vector);
    } else if has_width_3_encoding(u) {
        assert(leading_byte_width_3(u) >= 0x80) by (bit_vector);
        assert(second_last_continuation_byte(u) >= 0x80) by (bit_vector);
        assert(last_continuation_byte(u) >= 0x80) by (bit_vector);
    } else {
        assert(leading_byte_width_4(u) >= 0x80) by (bit_vector);
        assert(third_last_continuation_byte(u) >= 0x80) by (bit_vector);
        assert(second_last_continuation_byte(u) >= 0x80) by (bit_vector);
        assert(last_continuation_byte(u) >= 0x80) by (bit_vector);
    }
}

/// Bytes without a newline, appended, lengthen the last line.
proof fn lemma_split_byte_lines_extend(x: Seq<u8>, e: Seq<u8>)
    requires
        forall|j: int| 0 <= j < e.len() ==> #[trigger] e[j] != 10u8,
    ensures
        split_byte_lines(x + e) == split_byte_lines(x).update(
            split_byte_lines(x).len() - 1,
            split_byte_lines(x).last() + e,
        ),
    decreases e.len(),
{
    lemma_split_byte_lines_nonempty(x);
    let s = split_byte_lines(x);
    if e.len() == 0 {
        assert(x + e =~= x);
        assert(s.last() + e =~= s.last());
        assert(s.update(s.len() - 1, s.last() + e) =~= s);
    } else {
        lemma_split_byte_lines_extend(x, e.drop_last());
        assert((x + e).drop_last() =~= x + e.drop_last());
        assert((x + e).last() == e.last());
        assert(e.last() == e[e.len() - 1]);
        let r = s.update(s.len() - 1, s.last() + e.drop_last());
        assert(r.last() == s.last() + e.drop_last());
        assert((s.last() + e.drop_last()).push(e.last()) =~= s.last() + e);
        assert(r.update(r.len() - 1, r.last().push(e.last())) =~= s.update(
            s.len() - 1,
            s.last() + e,
        ));
    }
}

/// The lines of an encoded text are UTF-8, and decoded they are the lines
/// of the text.
proof fn lemma_split_encoded_lines(c: Seq<char>)
    ensures
        forall|j: int|
            0 <= j < split_byte_lines(encode_utf8(c)).len() ==> valid_utf8(
                #[trigger] split_byte_lines(encode_utf8(c))[j],
            ),
        decode_lines(split_byte_lines(encode_utf8(c))) == split_lines(c),
    decreases c.len(),
{
    if c.len() == 0 {
        assert(encode_utf8(c) =~= Seq::<u8>::empty());
        assert(decode_utf8(Seq::<u8>::empty()) =~= Seq::<char>::empty());
        assert(decode_lines(seq![Seq::<u8>::empty()]) =~= seq![Seq::<char>::empty()]);
    } else {
        let c2 = c.drop_last();
        let ch = c.last();
        lemma_split_encoded_lines(c2);
        lemma_encode_utf8_concat(c2, seq![ch]);
        assert(c =~= c2 + seq![ch]);
        let x = encode_utf8(c2);
        let e = encode_utf8(seq![ch]);
        let s = split_byte_lines(x);
        let t = split_byte_lines(x + e);
        lemma_split_byte_lines_nonempty(x);
        lemma_encode_char_newline(ch);
        if ch == '\n' {
            assert((x + e).drop_last() =~= x);
            assert((x + e).last() == 10u8);
            assert(t == s.push(seq![]));
            assert(decode_utf8(Seq::<u8>::empty()) =~= Seq::<char>::empty());
            assert(decode_lines(t) =~= decode_lines(s).push(seq![]));
        } else {
            lemma_split_byte_lines_extend(x, e);
            let last = s.last();
            assert(valid_utf8(last));
            encode_utf8_valid_utf8(seq![ch]);
            valid_utf8_concat(last, e);
            decode_utf8_encode_utf8(last);
            lemma_encode_utf8_concat(decode_utf8(last), seq![ch]);
            assert(decode_utf8(last) + seq![ch] =~= decode_utf8(last).push(ch));
            encode_utf8_decode_utf8(decode_utf8(last).push(ch));
            assert(decode_utf8(last + e) == decode_utf8(last).push(ch));
            assert forall|j: int| 0 <= j < t.len() implies valid_utf8(#[trigger] t[j]) by {
                if j < t.len() - 1 {
                    assert(t[j] == s[j]);
                }
            }
            let r = split_lines(c2);
            assert(decode_lines(t) =~= r.update(r.len() - 1, r.last().push(ch)));
        }
    }
}

/// Bytes that are UTF-8 read as their text parses: the same entries, or
/// the same refusal.
pub proof fn lemma_bytes_entries_utf8(b: Seq<u8>)
    requires
        valid_utf8(b),
    ensures
        bytes_entries(b) == match text_entries(decode_utf8(b)) {
            Ok(es) => Ok::<Seq<EntryView>, ReadErrorView>(es),
            Err(e) => Err(ReadErrorView::Parse(e)),
        },
{
    decode_utf8_encode_utf8(b);
    lemma_split_encoded_lines(decode_utf8(b));
    let ls = split_byte_lines(b);
    lemma_utf8_lines(ls);
    if utf8_lines(ls) < ls.len() {
        assert(valid_utf8(ls[utf8_lines(ls) as int]));
    }
    assert(ls.take(ls.len() as int) =~= ls);
}

// ---------------------------------------------------------------------------
// Reading back what was written
// ---------------------------------------------------------------------------

/// A path that the text form can carry: not empty, and without `|` or a
/// line break.
pub open spec fn valid_path(p: Seq<char>) -> bool {
    &&& p.len() > 0
    &&& forall|i: int| 0 <= i < p.len() ==> #[trigger] p[i] != '|' && p[i] != '\n'
}

/// Text without a newline is one line.
proof fn lemma_split_lines_single(l: Seq<char>)
    requires
        forall|i: int| 0 <= i < l.len() ==> l[i] != '\n',
    ensures
        split_lines(l) == seq![l],
    decreases l.len(),
{
    if l.len() > 0 {
        lemma_split_lines_single(l.drop_last());
        assert(l.last() != '\n');
        assert(l.drop_last().push(l.last()) =~= l);
        assert(seq![l.drop_last()].update(0, l.drop_last().push(l.last())) =~= seq![l]);
    } else {
        assert(l =~= Seq::<char>::empty());
    }
}

/// A line followed by a newline: that line, then an empty one.
proof fn lemma_split_lines_line(l: Seq<char>)
    requires
        forall|i: int| 0 <= i < l.len() ==> l[i] != '\n',
    ensures
        split_lines(l + seq!['\n']) == seq![l, Seq::<char>::empty()],
{
    lemma_split_lines_single(l);
    assert((l + seq!['\n']).drop_last() =~= l);
}

/// Trimming keeps a text that neither starts nor ends with whitespace.
proof fn lemma_trim_unchanged(s: Seq<char>)
    requires
        s.len() > 0,
        !is_ws(s[0]),
        !is_ws(s.last()),
    ensures
        trim(s) == s,
{
}

/// Trimming keeps a first character that is not whitespace.
proof fn lemma_trim_first(s: Seq<char>)
    requires
        s.len() > 0,
        !is_ws(s[0]),
    ensures
        trim(s).len() > 0,
        trim(s)[0] == s[0],
{
    lemma_trim_end_first(s);
}

proof fn lemma_trim_end_first(s: Seq<char>)
    requires
        s.len() > 0,
        !is_ws(s[0]),
    ensures
        trim_end(s).len() > 0,
        trim_end(s)[0] == s[0],
    decreases s.len(),
{
    if is_ws(s.last()) {
        lemma_trim_end_first(s.drop_last());
    }
}

/// An entry line splits into its version tag, path, size and hash.
proof fn lemma_entry_line_fields(e: EntryView)
    requires
        valid_path(e.path),
    ensures
        split4(entry_line(e)) == Some(
            (version_tag(), e.path, decimal(e.size as nat), hex16(e.hash)),
        ),
{
    let l = entry_line(e);
    let d = decimal(e.size as nat);
    let h = hex16(e.hash);
    lemma_decimal_value(e.size as nat);
    lemma_first_bar(l, 4);
    let r1 = l.skip(5);
    assert(r1 =~= e.path + seq!['|'] + d + seq!['|'] + h);
    assert(l.take(4) =~= version_tag());
    lemma_first_bar(r1, e.path.len() as int);
    let r2 = r1.skip(e.path.len() as int + 1);
    assert(r1.take(e.path.len() as int) =~= e.path);
    assert(r2 =~= d + seq!['|'] + h);
    assert forall|j: int| 0 <= j < d.len() implies r2[j] != '|' by {
        assert(r2[j] == d[j]);
    }
    lemma_first_bar(r2, d.len() as int);
    assert(r2.take(d.len() as int) =~= d);
    assert(r2.skip(d.len() as int + 1) =~= h);
}

/// Reading an entry line gives back the entry.
pub proof fn lemma_entry_line_roundtrip(e: EntryView, n: nat)
    requires
        valid_path(e.path),
    ensures
        trim(entry_line(e)) == entry_line(e),
        !is_skipped(entry_line(e)),
        parse_entry_line(entry_line(e), n) == Ok::<EntryView, ParseErrorView>(e),
{
    lemma_entry_line_fields(e);
    lemma_decimal_roundtrip(e.size);
    lemma_hex16_roundtrip(e.hash);
    let l = entry_line(e);
    assert(l[0] == 'V');
    assert(l.last() == hex16(e.hash).last());
    crate::number::lemma_hex_width_value(e.hash as nat, 16);
    assert(crate::number::char_digit(hex16(e.hash)[15], 16) is Some);
    lemma_trim_unchanged(l);
}

/// The lines holding entries `es`, in order.
pub open spec fn entry_line_seq(es: Seq<EntryView>) -> Seq<Seq<char>> {
    es.map_values(|e: EntryView| entry_line(e))
}

proof fn lemma_entry_line_no_newline(e: EntryView)
    requires
        valid_path(e.path),
    ensures
        entry_line(e).len() > 0,
        forall|i: int| 0 <= i < entry_line(e).len() ==> #[trigger] entry_line(e)[i] != '\n',
{
    let l = entry_line(e);
    lemma_decimal_value(e.size as nat);
    crate::number::lemma_hex_width_value(e.hash as nat, 16);
    let d = decimal(e.size as nat);
    let h = hex16(e.hash);
    assert forall|i: int| 0 <= i < l.len() implies #[trigger] l[i] != '\n' by {
        let p = 5 + e.path.len();
        let q = p + 1 + d.len();
        if i < 5 {
        } else if i < p {
            assert(l[i] == e.path[i - 5]);
        } else if i == p {
        } else if i < q {
            assert(l[i] == d[i - p - 1]);
        } else if i == q {
        } else {
            assert(l[i] == h[i - q - 1]);
            assert(crate::number::char_digit(h[i - q - 1], 16) is Some);
        }
    }
}

/// The lines of the entry lines of `es`: one per entry, then an empty one.
proof fn lemma_split_entry_lines(es: Seq<EntryView>)
    requires
        forall|i: int| 0 <= i < es.len() ==> valid_path(#[trigger] es[i].path),
    ensures
        split_lines(entry_lines(es)) == entry_line_seq(es).push(Seq::<char>::empty()),
        es.len() > 0 ==> entry_lines(es).len() > 0 && entry_lines(es).last() == '\n',
    decreases es.len(),
{
    if es.len() == 0 {
        assert(entry_line_seq(es) =~= Seq::<Seq<char>>::empty());
        assert(split_lines(entry_lines(es)) =~= seq![Seq::<char>::empty()]);
    } else {
        let e = es.last();
        let prev = es.drop_last();
        lemma_split_entry_lines(prev);
        lemma_entry_line_no_newline(e);
        lemma_split_lines_line(entry_line(e));
        let tail = entry_line(e) + seq!['\n'];
        assert(entry_lines(es) =~= entry_lines(prev) + tail);
        assert(entry_line_seq(es) =~= entry_line_seq(prev).push(entry_line(e)));
        if prev.len() == 0 {
            assert(entry_lines(prev) =~= Seq::<char>::empty());
            assert(entry_lines(es) =~= tail);
            assert(entry_line_seq(prev) =~= Seq::<Seq<char>>::empty());
            assert(split_lines(entry_lines(es)) =~= entry_line_seq(es).push(Seq::<char>::empty()));
        } else {
            lemma_split_lines_concat(entry_lines(prev), tail);
            assert(entry_line_seq(prev).push(Seq::<char>::empty()).drop_last() =~= entry_line_seq(
                prev,
            ));
            assert(split_lines(entry_lines(es)) =~= entry_line_seq(es).push(Seq::<char>::empty()));
        }
    }
}

/// The two comment lines of the header.
proof fn lemma_header_lines()
    ensures
        forall|i: int| 0 <= i < title_line().len() ==> #[trigger] title_line()[i] != '\n',
        forall|i: int| 0 <= i < format_line().len() ==> #[trigger] format_line()[i] != '\n',
        title_line().len() > 0 && title_line()[0] == '#',
        format_line().len() > 0 && format_line()[0] == '#',
{
    reveal_strlit("# vhsvault manifest v1 (FNV-1a 64-bit)");
    reveal_strlit("# format: VHS1|path|size|hash");
}

/// The lines of the header and entries `es`, without the final empty line.
pub open spec fn text_lines(es: Seq<EntryView>) -> Seq<Seq<char>> {
    seq![title_line(), format_line()] + entry_line_seq(es)
}

proof fn lemma_parse_text_lines(es: Seq<EntryView>)
    requires
        forall|i: int| 0 <= i < es.len() ==> valid_path(#[trigger] es[i].path),
    ensures
        parse_lines(text_lines(es)) == Ok::<Seq<EntryView>, ParseErrorView>(es),
    decreases es.len(),
{
    if es.len() == 0 {
        lemma_header_lines();
        lemma_trim_first(title_line());
        lemma_trim_first(format_line());
        let ls = text_lines(es);
        assert(ls =~= seq![title_line(), format_line()]);
        assert(ls.drop_last() =~= seq![title_line()]);
        assert(ls.drop_last().drop_last() =~= Seq::<Seq<char>>::empty());
        assert(parse_lines(Seq::<Seq<char>>::empty()) == Ok::<Seq<EntryView>, ParseErrorView>(seq![]));
        assert(is_skipped(trim(title_line())));
        assert(is_skipped(trim(format_line())));
        assert(parse_lines(seq![title_line()]) == Ok::<Seq<EntryView>, ParseErrorView>(seq![]));
        assert(es =~= Seq::<EntryView>::empty());
    } else {
        lemma_parse_text_lines(es.drop_last());
        lemma_entry_line_roundtrip(es.last(), text_lines(es).len());
        assert(text_lines(es).drop_last() =~= text_lines(es.drop_last()));
        assert(text_lines(es).last() == entry_line(es.last()));
        assert(es.drop_last().push(es.last()) =~= es);
    }
}

/// Reading back the text form of entries with valid paths gives the same
/// entries, in the same order.
pub proof fn lemma_text_roundtrip(es: Seq<EntryView>)
    requires
        forall|i: int| 0 <= i < es.len() ==> valid_path(#[trigger] es[i].path),
    ensures
        text_entries(manifest_text(es)) == Ok::<Seq<EntryView>, ParseErrorView>(es),
{
    lemma_header_lines();
    lemma_split_entry_lines(es);
    let t = title_line() + seq!['\n'];
    let f = format_line() + seq!['\n'];
    let body = entry_lines(es);
    assert(manifest_text(es) =~= t + (f + body));
    lemma_split_lines_line(title_line());
    lemma_split_lines_line(format_line());
    lemma_split_lines_concat(f, body);
    lemma_split_lines_concat(t, f + body);
    let ls = split_lines(manifest_text(es));
    assert(ls =~= text_lines(es).push(Seq::<char>::empty()));
    lemma_parse_text_lines(es);
    assert(ls.drop_last() =~= text_lines(es));
    assert(trim(ls.last()) =~= Seq::<char>::empty());
}

/// Writing a sorted manifest whose paths the format can carry and reading
/// the text back gives the same entries, in the same order.
pub proof fn lemma_sorted_manifest_roundtrip(es: Seq<EntryView>, back: Seq<EntryView>)
    requires
        forall|i: int| 0 <= i < es.len() ==> valid_path(#[trigger] es[i].path),
        sorted_by_path(es),
        stably_sorted(back, es),
    ensures
        text_entries(manifest_text(es)) == Ok::<Seq<EntryView>, ParseErrorView>(es),
        back == es,
{
    lemma_text_roundtrip(es);
    lemma_sort_of_sorted(back, es);
}

// ---------------------------------------------------------------------------
// Messages
// ---------------------------------------------------------------------------

/// `"line "`, the line number, and `": "`.
pub open spec fn line_prefix(n: nat) -> Seq<char> {
    "line "@ + decimal(n) + ": "@
}

/// The message of a refusal, as displayed.
pub open spec fn error_message(e: ParseErrorView) -> Seq<char> {
    match e {
        ParseErrorView::BadVersion(l) => "unsupported manifest version in line: "@ + l,
        ParseErrorView::BadLine(n, l) => line_prefix(n)
            + "malformed entry (expected VHS1|path|size|hash): "@ + l,
        ParseErrorView::BadSize(n, f) => line_prefix(n) + "invalid size '"@ + f
            + "': not a number"@,
        ParseErrorView::BadHash(n, f) => line_prefix(n) + "invalid hash '"@ + f
            + "': expected 16 hex digits"@,
        ParseErrorView::EmptyPath(n) => line_prefix(n) + "empty path field"@,
    }
}

fn push_line_prefix(s: &mut String, n: usize)
    ensures
        final(s)@ == old(s)@ + line_prefix(n as nat),
{
    s.append("line ");
    push_decimal(s, n as u64);
    s.append(": ");
    assert(final(s)@ =~= old(s)@ + line_prefix(n as nat));
}

impl ParseError {
    /// The message of this refusal, as displayed.
    pub fn message(&self) -> (m: String)
        ensures
            m@ == error_message(self@),
    {
        let mut s = String::new();
        match self {
            ParseError::BadVersion(l) => {
                s.append("unsupported manifest version in line: ");
                s.append(l.as_str());
            },
            ParseError::BadLine(n, l) => {
                push_line_prefix(&mut s, *n);
                s.append("malformed entry (expected VHS1|path|size|hash): ");
                s.append(l.as_str());
            },
            ParseError::BadSize(n, f) => {
                push_line_prefix(&mut s, *n);
                s.append("invalid size '");
                s.append(f.as_str());
                s.append("': not a number");
            },
            ParseError::BadHash(n, f) => {
                push_line_prefix(&mut s, *n);
                s.append("invalid hash '");
                s.append(f.as_str());
                s.append("': expected 16 hex digits");
            },
            ParseError::EmptyPath(n) => {
                push_line_prefix(&mut s, *n);
                s.append("empty path field");
            },
        }
        assert(s@ =~= error_message(self@));
        s
    }
}

} // verus!
