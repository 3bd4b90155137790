use vstd::prelude::*;

use crate::wgsl_error::ErrModel;
use crate::wgsl_error::WgslError;
use crate::wgsl_error::include_syntax_error;
use crate::wgsl_error::rewrite_error;
use crate::wgsl_error::rewrite_up;

verus! {

/// One entry of the source map: the half-open range of output lines
/// `start .. end` was produced by expanding a directive that stood on line
/// `to` of the including file.
#[derive(Clone, Copy, PartialEq, Eq, Structural, Debug)]
pub struct MapEntry {
    pub start: usize,
    pub end: usize,
    pub to: usize,
}

/// Maps a line of the flattened output buffer back to the line of the
/// original source that is responsible for it.  Entries are appended in the
/// order their directives were met during the depth-first expansion.
#[derive(Debug)]
pub struct SourceMap {
    entries: Vec<MapEntry>,
}

/// The lookup rule over the recorded entries: take the entry appended last
/// among those whose range starts at or before `line`.  A line inside that
/// entry's range collapses to the directive line that produced the range; a
/// line past the range's end is carried forward as a linear offset from the
/// directive line.  With no applicable entry the line belongs to the root
/// file's own text and is returned unchanged.
pub open spec fn map_line_spec(s: Seq<MapEntry>, line: int) -> int
    decreases s.len(),
{
    if s.len() == 0 {
        line
    } else {
        let e = s.last();
        if e.start <= line {
            if line >= e.end {
                line - e.end + e.to
            } else {
                e.to as int
            }
        } else {
            map_line_spec(s.drop_last(), line)
        }
    }
}

impl View for SourceMap {
    type V = Seq<MapEntry>;

    closed spec fn view(&self) -> Seq<MapEntry> {
        self.entries@
    }
}

impl SourceMap {
    /// An empty map: every line translates to itself.
    pub fn new() -> (r: SourceMap)
        ensures
            r@ == Seq::<MapEntry>::empty(),
    {
        SourceMap { entries: Vec::new() }
    }

    /// Records that output lines `start .. end` came from expanding the
    /// directive on line `to` of the including file.
    pub fn push_entry(&mut self, start: usize, end: usize, to: usize)
        ensures
            final(self)@ == old(self)@.push(MapEntry { start, end, to }),
    {
        self.entries.push(MapEntry { start, end, to });
    }

    /// As `map_line`, for any input: where the linear offset would exceed
    /// the machine's line-number range, the queried line comes back
    /// unchanged instead.
    pub fn map_line_total(&self, input_line: usize) -> (r: usize)
        ensures
            r == map_line_total_spec(self@, input_line as int),
    {
        let mut i: usize = self.entries.len();
        proof {
            assert(self@.take(i as int) =~= self@);
        }
        while i > 0
            invariant
                i <= self.entries.len(),
                map_line_spec(self@, input_line as int) == map_line_spec(
                    self@.take(i as int),
                    input_line as int,
                ),
            decreases i,
        {
            let e = self.entries[i - 1];
            if e.start <= input_line {
                proof {
                    assert(self@.take(i as int).last() == e);
                }
                if input_line >= e.end {
                    if input_line - e.end <= usize::MAX - e.to {
                        return input_line - e.end + e.to;
                    } else {
                        return input_line;
                    }
                } else {
                    return e.to;
                }
            }
            proof {
                assert(self@.take(i as int).drop_last() =~= self@.take(i - 1));
            }
            i = i - 1;
        }
        proof {
            assert(self@.take(0) =~= Seq::<MapEntry>::empty());
        }
        input_line
    }

    /// Translates a line of the flattened buffer to the best-known original
    /// line, by the lookup rule of `map_line_spec`.
    pub fn map_line(&self, input_line: usize) -> (r: usize)
        requires
            map_line_spec(self@, input_line as int) <= usize::MAX,
        ensures
            r == map_line_spec(self@, input_line as int),
    {
        let mut i: usize = self.entries.len();
        proof {
            assert(self@.take(i as int) =~= self@);
        }
        while i > 0
            invariant
                i <= self.entries.len(),
                map_line_spec(self@, input_line as int) <= usize::MAX,
                map_line_spec(self@, input_line as int) == map_line_spec(
                    self@.take(i as int),
                    input_line as int,
                ),
            decreases i,
        {
            let e = self.entries[i - 1];
            if e.start <= input_line {
                proof {
                    assert(self@.take(i as int).last() == e);
                }
                if input_line >= e.end {
                    proof {
                        assert(map_line_spec(self@, input_line as int) == input_line - e.end
                            + e.to);
                        assert(input_line - e.end + e.to <= usize::MAX);
                    }
                    return input_line - e.end + e.to;
                } else {
                    return e.to;
                }
            }
            proof {
                assert(self@.take(i as int).drop_last() =~= self@.take(i - 1));
            }
            i = i - 1;
        }
        proof {
            assert(self@.take(0) =~= Seq::<MapEntry>::empty());
        }
        input_line
    }
}

/// The total form of the lookup rule: where the linear offset would leave
/// the machine's line-number range, the queried line is kept unchanged.
pub open spec fn map_line_total_spec(s: Seq<MapEntry>, line: int) -> int {
    if map_line_spec(s, line) <= usize::MAX {
        map_line_spec(s, line)
    } else {
        line
    }
}

impl Default for SourceMap {
    /// The empty map.
    fn default() -> (r: SourceMap)
        ensures
            r@ == Seq::<MapEntry>::empty(),
    {
        SourceMap::new()
    }
}

/// The whitespace bytes that may surround a directive's tokens.  This is
/// deliberately the ASCII whitespace class and no more: the scanner works
/// on bytes, so a Unicode space (a no-break space, say) before the
/// directive keyword leaves the line an ordinary text line.
pub open spec fn is_space(b: u8) -> bool {
    b == 32 || b == 9 || b == 10 || b == 13 || b == 11 || b == 12
}

/// The first index at or after `i` whose byte is not whitespace, or the
/// length of `s` when only whitespace remains.
pub open spec fn first_ns(s: Seq<u8>, i: int) -> int
    decreases s.len() - i,
{
    if i < 0 || i >= s.len() {
        s.len() as int
    } else if is_space(s[i]) {
        first_ns(s, i + 1)
    } else {
        i
    }
}

/// The end (exclusive) of the last run of non-whitespace bytes of `s`: zero
/// when `s` is all whitespace.
pub open spec fn last_ns(s: Seq<u8>) -> int
    decreases s.len(),
{
    if s.len() == 0 {
        0
    } else if is_space(s.last()) {
        last_ns(s.drop_last())
    } else {
        s.len() as int
    }
}

/// `s` with leading and trailing whitespace removed.
pub open spec fn trim_spec(s: Seq<u8>) -> Seq<u8> {
    if first_ns(s, 0) >= last_ns(s) {
        Seq::empty()
    } else {
        s.subrange(first_ns(s, 0), last_ns(s))
    }
}

/// The first index at or after `i` holding byte `b`, or the length of `s`
/// when `b` does not occur there.
pub open spec fn find_byte(s: Seq<u8>, b: u8, i: int) -> int
    decreases s.len() - i,
{
    if i < 0 || i >= s.len() {
        s.len() as int
    } else if s[i] == b {
        i
    } else {
        find_byte(s, b, i + 1)
    }
}

pub proof fn lemma_first_ns(s: Seq<u8>, i: int)
    requires
        0 <= i <= s.len(),
    ensures
        i <= first_ns(s, i) <= s.len(),
        first_ns(s, i) < s.len() ==> !is_space(s[first_ns(s, i)]),
        forall|k: int| i <= k < first_ns(s, i) ==> is_space(s[k]),
    decreases s.len() - i,
{
    if i < s.len() && is_space(s[i]) {
        lemma_first_ns(s, i + 1);
    }
}

pub proof fn lemma_last_ns(s: Seq<u8>)
    ensures
        0 <= last_ns(s) <= s.len(),
        last_ns(s) > 0 ==> !is_space(s[last_ns(s) - 1]),
        forall|k: int| last_ns(s) <= k < s.len() ==> is_space(s[k]),
    decreases s.len(),
{
    if s.len() > 0 && is_space(s.last()) {
        lemma_last_ns(s.drop_last());
        assert forall|k: int| last_ns(s) <= k < s.len() implies is_space(s[k]) by {
            if k < s.len() - 1 {
                assert(s.drop_last()[k] == s[k]);
            }
        }
    }
}

pub proof fn lemma_find_byte(s: Seq<u8>, b: u8, i: int)
    requires
        0 <= i <= s.len(),
    ensures
        i <= find_byte(s, b, i) <= s.len(),
        find_byte(s, b, i) < s.len() ==> s[find_byte(s, b, i)] == b,
        forall|k: int| i <= k < find_byte(s, b, i) ==> s[k] != b,
    decreases s.len() - i,
{
    if i < s.len() && s[i] != b {
        lemma_find_byte(s, b, i + 1);
    }
}

/// A trimmed line has no whitespace at its first position.
pub proof fn lemma_trim_first(l: Seq<u8>)
    ensures
        trim_spec(l).len() > 0 ==> !is_space(trim_spec(l)[0]),
{
    lemma_first_ns(l, 0);
    lemma_last_ns(l);
}

/// The keyword that opens a directive line: the bytes of `#` followed by the
/// letters of the inclusion keyword.
pub open spec fn directive_kw() -> Seq<u8> {
    seq![35u8, 105u8, 110u8, 99u8, 108u8, 117u8, 100u8, 101u8]
}

/// A trimmed line that opens with the directive keyword is treated as a
/// directive, whether or not the rest of it is well formed.
pub open spec fn is_directive(t: Seq<u8>) -> bool {
    t.len() >= 8 && t.subrange(0, 8) == directive_kw()
}

/// Where the opening quote of the directive's path must stand: at the first
/// non-whitespace byte after the keyword.
pub open spec fn dir_open_pos(t: Seq<u8>) -> int {
    first_ns(t, 8)
}

pub open spec fn dir_open_ok(t: Seq<u8>) -> bool {
    dir_open_pos(t) < t.len() && t[dir_open_pos(t)] == 34
}

/// The closing quote: the first quote byte after the opening one.
pub open spec fn dir_close_pos(t: Seq<u8>) -> int {
    find_byte(t, 34, dir_open_pos(t) + 1)
}

pub open spec fn dir_close_ok(t: Seq<u8>) -> bool {
    dir_close_pos(t) < t.len()
}

/// The included path: the bytes between the two quotes, kept verbatim.
pub open spec fn dir_path(t: Seq<u8>) -> Seq<u8> {
    t.subrange(dir_open_pos(t) + 1, dir_close_pos(t))
}

/// After the closing quote nothing may stand but whitespace, one semicolon,
/// and the end of the line.
pub open spec fn dir_semi_ok(t: Seq<u8>) -> bool {
    let j = first_ns(t, dir_close_pos(t) + 1);
    j == t.len() - 1 && t[j] == 59
}

pub open spec fn line_is_directive(l: Seq<u8>) -> bool {
    is_directive(trim_spec(l))
}

pub open spec fn line_open_ok(l: Seq<u8>) -> bool {
    dir_open_ok(trim_spec(l))
}

pub open spec fn line_close_ok(l: Seq<u8>) -> bool {
    dir_close_ok(trim_spec(l))
}

pub open spec fn line_semi_ok(l: Seq<u8>) -> bool {
    dir_semi_ok(trim_spec(l))
}

pub open spec fn line_inc_path(l: Seq<u8>) -> Seq<u8> {
    dir_path(trim_spec(l))
}

/// A directive line of the exact accepted shape.
pub open spec fn line_good_directive(l: Seq<u8>) -> bool {
    line_is_directive(l) && line_open_ok(l) && line_close_ok(l) && line_semi_ok(l)
}

fn is_space_b(b: u8) -> (r: bool)
    ensures
        r == is_space(b),
{
    b == 32 || b == 9 || b == 10 || b == 13 || b == 11 || b == 12
}

fn first_non_space(v: &Vec<u8>, from: usize) -> (r: usize)
    requires
        from <= v.len(),
    ensures
        r == first_ns(v@, from as int),
        from <= r <= v.len(),
{
    let mut i: usize = from;
    while i < v.len()
        invariant
            from <= i <= v.len(),
            first_ns(v@, from as int) == first_ns(v@, i as int),
        decreases v.len() - i,
    {
        if !is_space_b(v[i]) {
            return i;
        }
        i = i + 1;
    }
    i
}

fn find_byte_at(v: &Vec<u8>, b: u8, from: usize) -> (r: usize)
    requires
        from <= v.len(),
    ensures
        r == find_byte(v@, b, from as int),
        from <= r <= v.len(),
{
    let mut i: usize = from;
    while i < v.len()
        invariant
            from <= i <= v.len(),
            find_byte(v@, b, from as int) == find_byte(v@, b, i as int),
        decreases v.len() - i,
    {
        if v[i] == b {
            return i;
        }
        i = i + 1;
    }
    i
}

fn last_non_space(v: &Vec<u8>) -> (r: usize)
    ensures
        r == last_ns(v@),
{
    let mut hi: usize = v.len();
    proof {
        assert(v@.take(hi as int) =~= v@);
    }
    while hi > 0
        invariant
            hi <= v.len(),
            last_ns(v@) == last_ns(v@.take(hi as int)),
        decreases hi,
    {
        if !is_space_b(v[hi - 1]) {
            proof {
                assert(v@.take(hi as int).last() == v@[hi - 1]);
            }
            return hi;
        }
        proof {
            assert(v@.take(hi as int).drop_last() =~= v@.take(hi - 1));
        }
        hi = hi - 1;
    }
    proof {
        assert(v@.take(0) =~= Seq::<u8>::empty());
    }
    0
}

/// A copy of `line` with leading and trailing whitespace removed.
fn trim_copy(line: &Vec<u8>) -> (t: Vec<u8>)
    ensures
        t@ == trim_spec(line@),
{
    let lo = first_non_space(line, 0);
    let hi = last_non_space(line);
    proof {
        lemma_first_ns(line@, 0);
        lemma_last_ns(line@);
    }
    let mut t: Vec<u8> = Vec::new();
    if lo >= hi {
        return t;
    }
    let mut k: usize = lo;
    while k < hi
        invariant
            lo <= k <= hi <= line.len(),
            t@ == line@.subrange(lo as int, k as int),
        decreases hi - k,
    {
        t.push(line[k]);
        proof {
            assert(line@.subrange(lo as int, k + 1) =~= line@.subrange(lo as int, k as int).push(
                line@[k as int],
            ));
        }
        k = k + 1;
    }
    t
}

/// Advances past leading whitespace from `from` and then past `pat`,
/// returning the index after the match, or nothing when `pat` does not stand
/// there.
pub fn advance(v: &Vec<u8>, from: usize, pat: &Vec<u8>) -> (r: Option<usize>)
    requires
        from <= v.len(),
    ensures
        ({
            let j = first_ns(v@, from as int);
            match r {
                Some(k) => j + pat@.len() <= v@.len() && v@.subrange(j, j + pat@.len()) == pat@
                    && k == j + pat@.len(),
                None => !(j + pat@.len() <= v@.len() && v@.subrange(j, j + pat@.len()) == pat@),
            }
        }),
{
    let j = first_non_space(v, from);
    if pat.len() > v.len() - j {
        return None;
    }
    let mut k: usize = 0;
    while k < pat.len()
        invariant
            0 <= k <= pat.len(),
            j + pat.len() <= v.len(),
            j == first_ns(v@, from as int),
            forall|m: int| 0 <= m < k ==> v@[j + m] == pat@[m],
        decreases pat.len() - k,
    {
        if v[j + k] != pat[k] {
            proof {
                assert(v@.subrange(j as int, j + pat@.len())[k as int] == v@[j + k]);
            }
            return None;
        }
        k = k + 1;
    }
    proof {
        assert(v@.subrange(j as int, j + pat@.len()) =~= pat@);
    }
    Some(j + pat.len())
}

/// How one physical line is classified: ordinary text to copy through, a
/// well-formed directive carrying its path, or a malformed directive.
pub enum ParsedLine {
    Plain,
    Inc { path: Vec<u8> },
    Bad { why: DirectiveErrKind },
}

/// The specific expectation a malformed directive line violated.
#[derive(Clone, Copy, Debug, PartialEq, Eq, Structural)]
pub enum DirectiveErrKind {
    MissingOpenQuote,
    MissingCloseQuote,
    MissingSemicolon,
}

fn kw_vec() -> (r: Vec<u8>)
    ensures
        r@ == directive_kw(),
{
    let mut r: Vec<u8> = Vec::new();
    r.push(35);
    r.push(105);
    r.push(110);
    r.push(99);
    r.push(108);
    r.push(117);
    r.push(100);
    r.push(101);
    proof {
        assert(r@ =~= directive_kw());
    }
    r
}

/// Classifies one line of source: not a directive, a well-formed directive
/// with its path, or a directive that violates the grammar.
pub fn parse_line(line: &Vec<u8>) -> (r: ParsedLine)
    ensures
        (r matches ParsedLine::Plain) <==> !line_is_directive(line@),
        (r matches ParsedLine::Bad { why: DirectiveErrKind::MissingOpenQuote }) <==> (
        line_is_directive(line@) && !line_open_ok(line@)),
        (r matches ParsedLine::Bad { why: DirectiveErrKind::MissingCloseQuote }) <==> (
        line_is_directive(line@) && line_open_ok(line@) && !line_close_ok(line@)),
        (r matches ParsedLine::Bad { why: DirectiveErrKind::MissingSemicolon }) <==> (
        line_is_directive(line@) && line_open_ok(line@) && line_close_ok(line@) && !line_semi_ok(
            line@,
        )),
        r matches ParsedLine::Inc { path: p } ==> line_good_directive(line@) && p@
            == line_inc_path(line@),
        line_good_directive(line@) ==> (r matches ParsedLine::Inc { path: p } && p@
            == line_inc_path(line@)),
{
    let t = trim_copy(line);
    let kw = kw_vec();
    proof {
        lemma_trim_first(line@);
        if t@.len() > 0 {
            assert(first_ns(t@, 0) == 0);
        }
    }
    let after_kw = advance(&t, 0, &kw);
    let k = match after_kw {
        None => {
            proof {
                assert(!is_directive(t@));
            }
            return ParsedLine::Plain;
        },
        Some(k) => k,
    };
    proof {
        assert(is_directive(t@));
        assert(k == 8);
    }
    let quote: Vec<u8> = vec_one(34);
    let open_end = match advance(&t, 8, &quote) {
        None => {
            proof {
                lemma_first_ns(t@, 8);
                if dir_open_ok(t@) {
                    assert(t@.subrange(dir_open_pos(t@), dir_open_pos(t@) + 1)[0] == t@[
                        dir_open_pos(t@)]);
                    assert(t@.subrange(dir_open_pos(t@), dir_open_pos(t@) + 1) =~= quote@);
                }
            }
            return ParsedLine::Bad { why: DirectiveErrKind::MissingOpenQuote };
        },
        Some(k2) => {
            proof {
                lemma_first_ns(t@, 8);
                assert(t@.subrange(first_ns(t@, 8), first_ns(t@, 8) + 1)[0] == t@[first_ns(
                    t@,
                    8,
                )]);
            }
            k2
        },
    };
    let qpos = find_byte_at(&t, 34, open_end);
    if qpos == t.len() {
        return ParsedLine::Bad { why: DirectiveErrKind::MissingCloseQuote };
    }
    let mut path: Vec<u8> = Vec::new();
    let mut k2: usize = open_end;
    while k2 < qpos
        invariant
            open_end <= k2 <= qpos <= t.len(),
            path@ == t@.subrange(open_end as int, k2 as int),
        decreases qpos - k2,
    {
        path.push(t[k2]);
        proof {
            assert(t@.subrange(open_end as int, k2 + 1) =~= t@.subrange(
                open_end as int,
                k2 as int,
            ).push(t@[k2 as int]));
        }
        k2 = k2 + 1;
    }
    let semi: Vec<u8> = vec_one(59);
    match advance(&t, qpos + 1, &semi) {
        None => {
            proof {
                lemma_first_ns(t@, qpos + 1);
                if dir_semi_ok(t@) {
                    let j = first_ns(t@, qpos + 1);
                    assert(t@.subrange(j, j + 1) =~= semi@);
                }
            }
            ParsedLine::Bad { why: DirectiveErrKind::MissingSemicolon }
        },
        Some(k3) => {
            proof {
                lemma_first_ns(t@, qpos + 1);
                assert(t@.subrange(first_ns(t@, qpos + 1), first_ns(t@, qpos + 1) + 1)[0] == t@[
                    first_ns(t@, qpos + 1)]);
            }
            if k3 == t.len() {
                proof {
                    assert(dir_semi_ok(t@));
                    assert(path@ =~= dir_path(t@));
                }
                ParsedLine::Inc { path }
            } else {
                ParsedLine::Bad { why: DirectiveErrKind::MissingSemicolon }
            }
        },
    }
}

fn vec_one(b: u8) -> (r: Vec<u8>)
    ensures
        r@ =~= seq![b],
{
    let mut r: Vec<u8> = Vec::new();
    r.push(b);
    proof {
        assert(r@ =~= seq![b]);
    }
    r
}

/// With an empty map every line translates to itself: a buffer that came
/// from a file without directives needs no correction.
pub proof fn lemma_map_line_empty(s: Seq<MapEntry>, line: int)
    requires
        s.len() == 0,
    ensures
        map_line_spec(s, line) == line,
{
}

/// With a single recorded expansion, a queried line before the range is
/// unchanged, a line inside the range collapses to the directive line, and a
/// line at or past the range's end is offset linearly from the directive
/// line.
pub proof fn lemma_map_line_single(e: MapEntry, line: int)
    ensures
        line < e.start ==> map_line_spec(seq![e], line) == line,
        e.start <= line < e.end ==> map_line_spec(seq![e], line) == e.to,
        e.start <= line && e.end <= line ==> map_line_spec(seq![e], line) == line - e.end + e.to,
{
    assert(seq![e].len() == 1);
    assert(seq![e].last() == e);
    assert(seq![e].drop_last() =~= Seq::<MapEntry>::empty());
    assert(map_line_spec(Seq::<MapEntry>::empty(), line) == line);
}

/// A line as stored: its bytes without the newline, and without a carriage
/// return just before the newline.
pub open spec fn strip_cr(l: Seq<u8>) -> Seq<u8> {
    if l.len() > 0 && l.last() == 13 {
        l.drop_last()
    } else {
        l
    }
}

/// The logical lines of a text, from position `p` on: split at each newline
/// byte, a trailing fragment without a newline counting as a line.
pub open spec fn spec_lines_from(s: Seq<u8>, p: int) -> Seq<Seq<u8>>
    decreases s.len() - p,
    via spec_lines_from_dec
{
    if p < 0 || p >= s.len() {
        Seq::empty()
    } else {
        let n = find_byte(s, 10, p);
        if n == s.len() {
            seq![strip_cr(s.subrange(p, n))]
        } else {
            seq![strip_cr(s.subrange(p, n))] + spec_lines_from(s, n + 1)
        }
    }
}

#[via_fn]
proof fn spec_lines_from_dec(s: Seq<u8>, p: int) {
    if 0 <= p < s.len() {
        lemma_find_byte(s, 10, p);
    }
}

pub open spec fn spec_lines(s: Seq<u8>) -> Seq<Seq<u8>> {
    spec_lines_from(s, 0)
}

/// Splits a text into its logical lines, stripping the newline and a
/// carriage return just before it from each.
pub fn split_lines(src: &Vec<u8>) -> (r: Vec<Vec<u8>>)
    ensures
        r.deep_view() == spec_lines(src@),
{
    let mut out: Vec<Vec<u8>> = Vec::new();
    let mut p: usize = 0;
    proof {
        assert(out.deep_view() + spec_lines_from(src@, 0) =~~= spec_lines_from(src@, 0));
    }
    while p < src.len()
        invariant
            p <= src.len(),
            spec_lines(src@) == out.deep_view() + spec_lines_from(src@, p as int),
        decreases src.len() - p,
    {
        let ghost out0 = out.deep_view();
        let n = find_byte_at(src, 10, p);
        proof {
            lemma_find_byte(src@, 10, p as int);
        }
        let mut seg: Vec<u8> = Vec::new();
        let mut k: usize = p;
        while k < n
            invariant
                p <= k <= n <= src.len(),
                seg@ == src@.subrange(p as int, k as int),
            decreases n - k,
        {
            seg.push(src[k]);
            proof {
                assert(src@.subrange(p as int, k + 1) =~= src@.subrange(p as int, k as int).push(
                    src@[k as int],
                ));
            }
            k = k + 1;
        }
        if seg.len() > 0 && seg[seg.len() - 1] == 13 {
            seg.pop();
            proof {
                assert(seg@ =~= strip_cr(src@.subrange(p as int, n as int)));
            }
        }
        proof {
            assert(seg@ =~= strip_cr(src@.subrange(p as int, n as int)));
        }
        out.push(seg);
        proof {
            assert(out.deep_view() =~~= out0.push(seg@));
            assert(spec_lines_from(src@, p as int) =~~= seq![
                strip_cr(src@.subrange(p as int, n as int)),
            ] + if n == src@.len() {
                Seq::<Seq<u8>>::empty()
            } else {
                spec_lines_from(src@, n + 1)
            });
            if n == src@.len() {
                assert(spec_lines(src@) =~~= out.deep_view() + spec_lines_from(
                    src@,
                    src@.len() as int,
                ));
            } else {
                assert(spec_lines(src@) =~~= out.deep_view() + spec_lines_from(src@, n + 1));
            }
        }
        if n == src.len() {
            p = n;
        } else {
            p = n + 1;
        }
    }
    proof {
        assert(spec_lines_from(src@, p as int) =~~= Seq::<Seq<u8>>::empty());
        assert(spec_lines(src@) =~~= out.deep_view());
    }
    out
}

/// The index just past the last path separator of `p`, or zero when `p`
/// holds none: the prefix of `p` up to this index is the directory a
/// relative inclusion is resolved against.
pub open spec fn dir_prefix_len(p: Seq<u8>) -> int
    decreases p.len(),
{
    if p.len() == 0 {
        0
    } else if p.last() == 47 {
        p.len() as int
    } else {
        dir_prefix_len(p.drop_last())
    }
}

/// Where an included path leads: an absolute path stands alone; otherwise it
/// is appended to the including file's directory prefix, and used as-is when
/// that file's path has no directory component.
pub open spec fn resolve_spec(base: Seq<u8>, rel: Seq<u8>) -> Seq<u8> {
    if rel.len() > 0 && rel[0] == 47 {
        rel
    } else {
        base.take(dir_prefix_len(base)) + rel
    }
}

pub proof fn lemma_dir_prefix_len(p: Seq<u8>)
    ensures
        0 <= dir_prefix_len(p) <= p.len(),
    decreases p.len(),
{
    if p.len() > 0 && p.last() != 47 {
        lemma_dir_prefix_len(p.drop_last());
    }
}

/// The text of the lines `a .. b`, each line followed by one newline byte.
pub open spec fn flat(lines: Seq<Seq<u8>>, a: int, b: int) -> Seq<u8>
    decreases b - a,
{
    if a < 0 || a >= b {
        Seq::empty()
    } else {
        lines[a] + seq![10u8] + flat(lines, a + 1, b)
    }
}

pub proof fn lemma_flat_snoc(lines: Seq<Seq<u8>>, a: int, b: int)
    requires
        0 <= a <= b,
    ensures
        flat(lines, a, b + 1) == flat(lines, a, b) + lines[b] + seq![10u8],
    decreases b - a,
{
    if a < b {
        lemma_flat_snoc(lines, a + 1, b);
        assert(flat(lines, a, b + 1) =~= flat(lines, a, b) + lines[b] + seq![10u8]);
    } else {
        assert(flat(lines, a + 1, a + 1) =~= Seq::<u8>::empty());
        assert(flat(lines, a, a + 1) =~= flat(lines, a, a) + lines[a] + seq![10u8]);
    }
}

/// The first line at or after `i` that opens with the directive keyword.
pub open spec fn first_special(lines: Seq<Seq<u8>>, i: int) -> int
    decreases lines.len() - i,
{
    if i < 0 || i >= lines.len() {
        lines.len() as int
    } else if line_is_directive(lines[i]) {
        i
    } else {
        first_special(lines, i + 1)
    }
}

pub proof fn lemma_first_special(lines: Seq<Seq<u8>>, i: int)
    requires
        0 <= i <= lines.len(),
    ensures
        i <= first_special(lines, i) <= lines.len(),
        first_special(lines, i) < lines.len() ==> line_is_directive(lines[first_special(lines, i)]),
        forall|k: int| i <= k < first_special(lines, i) ==> !line_is_directive(lines[k]),
    decreases lines.len() - i,
{
    if i < lines.len() && !line_is_directive(lines[i]) {
        lemma_first_special(lines, i + 1);
    }
}

/// The message that names the expectation a malformed directive violated.
pub open spec fn dir_err_msg(k: DirectiveErrKind) -> Seq<char> {
    match k {
        DirectiveErrKind::MissingOpenQuote => "expected '\"' after #include"@,
        DirectiveErrKind::MissingCloseQuote => "expected '\"' at the end of path"@,
        DirectiveErrKind::MissingSemicolon => "expected ';' after #include directive"@,
    }
}

/// Which expectation a malformed directive line violated, checked in the
/// order the grammar reads the line.
pub open spec fn line_err_kind(l: Seq<u8>) -> DirectiveErrKind {
    if !line_open_ok(l) {
        DirectiveErrKind::MissingOpenQuote
    } else if !line_close_ok(l) {
        DirectiveErrKind::MissingCloseQuote
    } else {
        DirectiveErrKind::MissingSemicolon
    }
}

/// The mathematical state of one file mid-expansion: its lines, the next
/// line to scan, the file's own path (the base for resolving its
/// inclusions), the output and map built so far, and the directive line a
/// child expansion was begun for.
#[verifier::ext_equal]
pub struct FrameModel {
    pub lines: Seq<Seq<u8>>,
    pub idx: int,
    pub base: Seq<u8>,
    pub out: Seq<u8>,
    pub out_lines: int,
    pub map: Seq<MapEntry>,
    pub pending: int,
}

#[verifier::ext_equal]
pub enum PhaseModel {
    WantCanon,
    WantText { canon: Seq<u8> },
    Finished,
}

/// The whole preprocessing state: the canonical paths already expanded, the
/// stack of files being expanded (innermost last), and what the driver was
/// asked to do last.
#[verifier::ext_equal]
pub struct PpModel {
    pub visited: Seq<Seq<u8>>,
    pub frames: Seq<FrameModel>,
    pub phase: PhaseModel,
}

#[verifier::ext_equal]
pub enum ReqModel {
    Canon { path: Seq<u8> },
    Read { path: Seq<u8> },
    Done { text: Seq<u8>, map: Seq<MapEntry> },
    Fail { err: ErrModel },
}

#[verifier::ext_equal]
pub enum ReplyModel {
    Path { canon: Seq<u8> },
    Text { content: Seq<u8> },
    NoAccess { msg: Seq<char> },
}

pub open spec fn frame_wf(f: FrameModel) -> bool {
    &&& 0 <= f.idx <= f.lines.len()
    &&& 0 <= f.out_lines <= f.out.len()
    &&& 0 <= f.pending < usize::MAX
}

pub open spec fn frames_wf(fs: Seq<FrameModel>) -> bool {
    forall|i: int| 0 <= i < fs.len() ==> frame_wf(#[trigger] fs[i])
}

pub open spec fn pp_wf(m: PpModel) -> bool {
    frames_wf(m.frames)
}

pub open spec fn pp_in_progress(m: PpModel) -> bool {
    !(m.phase matches PhaseModel::Finished)
}

/// Which replies answer which outstanding request.
pub open spec fn reply_fits(m: PpModel, r: ReplyModel) -> bool {
    match r {
        ReplyModel::Path { .. } => m.phase matches PhaseModel::WantCanon,
        ReplyModel::Text { .. } => m.phase matches PhaseModel::WantText { .. },
        ReplyModel::NoAccess { .. } => pp_in_progress(m),
    }
}

/// How a finished child expansion lands in its including file: the child's
/// text, then one separator newline; one map entry records the range of
/// output lines the child produced and the directive line that asked for it.
pub open spec fn absorb_spec(f: FrameModel, child_out: Seq<u8>, child_lines: int) -> FrameModel {
    FrameModel {
        out: f.out + child_out + seq![10u8],
        out_lines: f.out_lines + child_lines + 1,
        map: f.map.push(
            MapEntry {
                start: f.out_lines as usize,
                end: (f.out_lines + child_lines) as usize,
                to: f.pending as usize,
            },
        ),
        ..f
    }
}

/// An error leaving the stack of open files: each level replaces the
/// reported line with its own pending directive's 0-based line.
pub open spec fn unwind_spec(frames: Seq<FrameModel>, e: ErrModel) -> ErrModel
    decreases frames.len(),
{
    if frames.len() == 0 {
        e
    } else {
        unwind_spec(frames.drop_last(), rewrite_up(e, frames.last().pending))
    }
}

/// Scanning resumes in the innermost open file and runs until the next
/// directive (ask the driver to canonicalize the resolved path), a
/// malformed directive (fail, unwinding through the enclosing files), or
/// the end of the file (deliver the file's text to its includer and
/// continue there; the root file's end completes the request).
pub open spec fn scan_spec(frames: Seq<FrameModel>) -> (Seq<FrameModel>, ReqModel)
    decreases frames.len(),
{
    if frames.len() == 0 {
        (frames, ReqModel::Fail { err: ErrModel::Io { msg: Seq::empty() } })
    } else {
        let f = frames.last();
        let j = first_special(f.lines, f.idx);
        let out2 = f.out + flat(f.lines, f.idx, j);
        let ol2 = f.out_lines + (j - f.idx);
        if j < f.lines.len() {
            let l = f.lines[j];
            if line_good_directive(l) {
                let f2 = FrameModel { idx: j + 1, out: out2, out_lines: ol2, pending: j, ..f };
                (
                    frames.update(frames.len() - 1, f2),
                    ReqModel::Canon { path: resolve_spec(f.base, line_inc_path(l)) },
                )
            } else {
                let e = ErrModel::Parser { error: dir_err_msg(line_err_kind(l)), line: j, pos: 0 };
                (
                    Seq::empty(),
                    ReqModel::Fail { err: unwind_spec(frames.drop_last(), e) },
                )
            }
        } else {
            if frames.len() == 1 {
                (Seq::empty(), ReqModel::Done { text: out2, map: f.map })
            } else {
                let parent = frames[frames.len() - 2];
                scan_spec(
                    frames.drop_last().update(
                        frames.len() - 2,
                        absorb_spec(parent, out2, ol2),
                    ),
                )
            }
        }
    }
}

pub open spec fn phase_after(r: ReqModel) -> PhaseModel {
    match r {
        ReqModel::Canon { .. } => PhaseModel::WantCanon,
        _ => PhaseModel::Finished,
    }
}

/// One transition of the preprocessing state on the driver's reply.  A
/// canonical path already expanded contributes an empty child on the spot;
/// a new one is recorded as visited and its text is asked for; arrived text
/// opens a frame and scanning resumes; a failed canonicalization or read
/// unwinds as an I/O error attributed through the open directives.
pub open spec fn step_spec(m: PpModel, reply: ReplyModel) -> (PpModel, ReqModel) {
    match reply {
        ReplyModel::Path { canon } => {
            if m.visited.contains(canon) {
                if m.frames.len() == 0 {
                    (
                        PpModel { phase: PhaseModel::Finished, ..m },
                        ReqModel::Done { text: Seq::empty(), map: Seq::empty() },
                    )
                } else {
                    let fr2 = m.frames.update(
                        m.frames.len() - 1,
                        absorb_spec(m.frames.last(), Seq::empty(), 0),
                    );
                    let sr = scan_spec(fr2);
                    (PpModel { frames: sr.0, phase: phase_after(sr.1), ..m }, sr.1)
                }
            } else {
                (
                    PpModel {
                        visited: m.visited.push(canon),
                        phase: PhaseModel::WantText { canon },
                        ..m
                    },
                    ReqModel::Read { path: canon },
                )
            }
        },
        ReplyModel::Text { content } => {
            let base = match m.phase {
                PhaseModel::WantText { canon } => canon,
                _ => Seq::empty(),
            };
            let f = FrameModel {
                lines: spec_lines(content),
                idx: 0,
                base,
                out: Seq::empty(),
                out_lines: 0,
                map: Seq::empty(),
                pending: 0,
            };
            let sr = scan_spec(m.frames.push(f));
            (PpModel { frames: sr.0, phase: phase_after(sr.1), ..m }, sr.1)
        },
        ReplyModel::NoAccess { msg } => {
            (
                PpModel { frames: Seq::empty(), phase: PhaseModel::Finished, ..m },
                ReqModel::Fail { err: unwind_spec(m.frames, ErrModel::Io { msg }) },
            )
        },
    }
}

fn copy_vec(src: &Vec<u8>) -> (r: Vec<u8>)
    ensures
        r@ == src@,
{
    let mut r: Vec<u8> = Vec::new();
    let mut k: usize = 0;
    while k < src.len()
        invariant
            k <= src.len(),
            r@ == src@.subrange(0, k as int),
        decreases src.len() - k,
    {
        r.push(src[k]);
        proof {
            assert(src@.subrange(0, k + 1) =~= src@.subrange(0, k as int).push(src@[k as int]));
        }
        k = k + 1;
    }
    proof {
        assert(src@.subrange(0, src@.len() as int) =~= src@);
    }
    r
}

fn push_all(dst: &mut Vec<u8>, src: &Vec<u8>)
    ensures
        final(dst)@ == old(dst)@ + src@,
{
    let mut k: usize = 0;
    while k < src.len()
        invariant
            k <= src.len(),
            dst@ == old(dst)@ + src@.subrange(0, k as int),
        decreases src.len() - k,
    {
        dst.push(src[k]);
        proof {
            assert(old(dst)@ + src@.subrange(0, k + 1) =~= (old(dst)@ + src@.subrange(
                0,
                k as int,
            )).push(src@[k as int]));
        }
        k = k + 1;
    }
    proof {
        assert(old(dst)@ + src@.subrange(0, src@.len() as int) =~= old(dst)@ + src@);
    }
}

fn dir_cut(base: &Vec<u8>) -> (r: usize)
    ensures
        r == dir_prefix_len(base@),
{
    let mut i: usize = base.len();
    proof {
        assert(base@.take(i as int) =~= base@);
    }
    while i > 0
        invariant
            i <= base.len(),
            dir_prefix_len(base@) == dir_prefix_len(base@.take(i as int)),
        decreases i,
    {
        if base[i - 1] == 47 {
            proof {
                assert(base@.take(i as int).last() == base@[i - 1]);
            }
            return i;
        }
        proof {
            assert(base@.take(i as int).drop_last() =~= base@.take(i - 1));
        }
        i = i - 1;
    }
    proof {
        assert(base@.take(0) =~= Seq::<u8>::empty());
    }
    0
}

fn vec_eq(a: &Vec<u8>, b: &Vec<u8>) -> (r: bool)
    ensures
        r == (a@ == b@),
{
    if a.len() != b.len() {
        return false;
    }
    let mut i: usize = 0;
    while i < a.len()
        invariant
            i <= a.len(),
            a@.len() == b@.len(),
            forall|k: int| 0 <= k < i ==> a@[k] == b@[k],
        decreases a.len() - i,
    {
        if a[i] != b[i] {
            return false;
        }
        i = i + 1;
    }
    proof {
        assert(a@ =~= b@);
    }
    true
}

/// One file being expanded.
struct Frame {
    lines: Vec<Vec<u8>>,
    idx: usize,
    base: Vec<u8>,
    out: Vec<u8>,
    out_lines: usize,
    map: SourceMap,
    pending: usize,
}

impl View for Frame {
    type V = FrameModel;

    closed spec fn view(&self) -> FrameModel {
        FrameModel {
            lines: self.lines.deep_view(),
            idx: self.idx as int,
            base: self.base@,
            out: self.out@,
            out_lines: self.out_lines as int,
            map: self.map@,
            pending: self.pending as int,
        }
    }
}

enum Phase {
    WantCanon,
    WantText { canon: Vec<u8> },
    Finished,
}

/// What the preprocessor asks its driver to do next: canonicalize a path,
/// read a canonical path's text, or nothing more because the request ended
/// in a flattened buffer with its map, or in an error.
pub enum PpRequest {
    Canon { path: Vec<u8> },
    Read { path: Vec<u8> },
    Done { text: Vec<u8>, map: SourceMap },
    Fail { err: WgslError },
}

impl View for PpRequest {
    type V = ReqModel;

    open spec fn view(&self) -> ReqModel {
        match self {
            PpRequest::Canon { path } => (ReqModel::Canon { path: path@ }),
            PpRequest::Read { path } => (ReqModel::Read { path: path@ }),
            PpRequest::Done { text, map } => (ReqModel::Done { text: text@, map: map@ }),
            PpRequest::Fail { err } => (ReqModel::Fail { err: err@ }),
        }
    }
}

/// The driver's answer: the canonical form of the path it was handed, the
/// bytes of the file it was asked to read, or the text of the I/O failure
/// that stopped it from doing either.
pub enum PpReply {
    Path { canon: Vec<u8> },
    Text { content: Vec<u8> },
    NoAccess { msg: String },
}

impl View for PpReply {
    type V = ReplyModel;

    open spec fn view(&self) -> ReplyModel {
        match self {
            PpReply::Path { canon } => (ReplyModel::Path { canon: canon@ }),
            PpReply::Text { content } => (ReplyModel::Text { content: content@ }),
            PpReply::NoAccess { msg } => (ReplyModel::NoAccess { msg: msg@ }),
        }
    }
}

/// The preprocessing state machine.  It owns no file access: the driver
/// performs each requested canonicalization or read and hands the outcome
/// back through `step`, until `Done` or `Fail` comes out.
pub struct Preprocessor {
    visited: Vec<Vec<u8>>,
    stack: Vec<Frame>,
    phase: Phase,
}

impl View for Preprocessor {
    type V = PpModel;

    closed spec fn view(&self) -> PpModel {
        PpModel {
            visited: self.visited.deep_view(),
            frames: self.stack@.map_values(|f: Frame| f@),
            phase: match self.phase {
                Phase::WantCanon => PhaseModel::WantCanon,
                Phase::WantText { canon } => (PhaseModel::WantText { canon: canon@ }),
                Phase::Finished => PhaseModel::Finished,
            },
        }
    }
}

fn absorb(parent: &mut Frame, child_out: Vec<u8>, child_lines: usize)
    requires
        frame_wf(old(parent)@),
        child_lines <= child_out@.len(),
    ensures
        final(parent)@ == absorb_spec(old(parent)@, child_out@, child_lines as int),
        frame_wf(final(parent)@),
{
    let ghost co_view = child_out@;
    let mut co = child_out;
    parent.out.append(&mut co);
    parent.out.push(10);
    let n = parent.out.len();
    proof {
        assert(parent.out@ =~= old(parent)@.out + co_view + seq![10u8]);
        assert(parent.out_lines + child_lines + 1 <= n);
    }
    let start = parent.out_lines;
    let end = parent.out_lines + child_lines;
    parent.map.push_entry(start, end, parent.pending);
    parent.out_lines = end + 1;
    proof {
        assert(parent@ =~~= absorb_spec(old(parent)@, co_view, child_lines as int));
    }
}

impl Preprocessor {
    fn visited_has(&self, p: &Vec<u8>) -> (r: bool)
        ensures
            r == self@.visited.contains(p@),
    {
        let mut i: usize = 0;
        while i < self.visited.len()
            invariant
                i <= self.visited.len(),
                forall|k: int| 0 <= k < i ==> self@.visited[k] != p@,
            decreases self.visited.len() - i,
        {
            if vec_eq(&self.visited[i], p) {
                proof {
                    assert(self@.visited[i as int] == p@);
                }
                return true;
            }
            proof {
                assert(self@.visited[i as int] == self.visited@[i as int]@);
            }
            i = i + 1;
        }
        proof {
            assert(!self@.visited.contains(p@));
        }
        false
    }

    fn unwind(&mut self, e: WgslError) -> (r: WgslError)
        ensures
            r@ == unwind_spec(old(self)@.frames, e@),
            final(self)@.frames == Seq::<FrameModel>::empty(),
            final(self)@.visited == old(self)@.visited,
            final(self)@.phase == old(self)@.phase,
    {
        let ghost frames0 = self@.frames;
        let ghost vis0 = self@.visited;
        let ghost phase0 = self@.phase;
        let ghost e0 = e@;
        let mut err = e;
        while self.stack.len() > 0
            invariant
                unwind_spec(frames0, e0) == unwind_spec(self@.frames, err@),
                self@.visited == vis0,
                self@.phase == phase0,
            decreases self.stack.len(),
        {
            let ghost pre = self@.frames;
            let f = match self.stack.pop() {
                Some(f) => f,
                None => vstd::pervasive::unreached(),
            };
            proof {
                assert(f@ == pre.last());
                assert(self@.frames =~~= pre.drop_last());
            }
            err = rewrite_error(err, f.pending);
        }
        proof {
            assert(self@.frames =~~= Seq::<FrameModel>::empty());
        }
        err
    }

    #[verifier::loop_isolation(false)]
    fn scan(&mut self) -> (r: PpRequest)
        requires
            frames_wf(old(self)@.frames),
            old(self)@.frames.len() > 0,
        ensures
            frames_wf(final(self)@.frames),
            final(self)@.frames == scan_spec(old(self)@.frames).0,
            r@ == scan_spec(old(self)@.frames).1,
            final(self)@.visited == old(self)@.visited,
            final(self)@.phase == phase_after(scan_spec(old(self)@.frames).1),
        decreases old(self)@.frames.len(),
    {
        let ghost all0 = self@.frames;
        let ghost vis0 = self@.visited;
        let mut f = match self.stack.pop() {
            Some(f) => f,
            None => vstd::pervasive::unreached(),
        };
        let ghost rest = self@.frames;
        let ghost f0 = f@;
        proof {
            assert(f0 == all0.last());
            assert(rest =~~= all0.drop_last());
            assert(frame_wf(f0));
            lemma_first_special(f0.lines, f0.idx);
            assert(f.out@ =~= f0.out + flat(f0.lines, f0.idx, f0.idx));
        }
        let ghost j = first_special(f0.lines, f0.idx);
        while f.idx < f.lines.len()
            invariant
                frames_wf(rest),
                self@.frames == rest,
                self@.visited == vis0,
                rest =~~= all0.drop_last(),
                all0.len() > 0,
                f0 == all0.last(),
                frame_wf(f0),
                j == first_special(f0.lines, f0.idx),
                f@.lines == f0.lines,
                f@.base == f0.base,
                f@.map == f0.map,
                f@.pending == f0.pending,
                f0.idx <= f.idx as int <= f0.lines.len(),
                first_special(f0.lines, f0.idx) == first_special(f0.lines, f.idx as int),
                f@.out == f0.out + flat(f0.lines, f0.idx, f.idx as int),
                f@.out_lines == f0.out_lines + (f.idx as int - f0.idx),
                frame_wf(f@),
            decreases f.lines.len() - f.idx,
        {
            proof {
                assert(f.lines.deep_view()[f.idx as int] == f.lines@[f.idx as int]@);
            }
            let pl = parse_line(&f.lines[f.idx]);
            match pl {
                ParsedLine::Plain => {
                    proof {
                        assert(!line_is_directive(f0.lines[f.idx as int]));
                        assert(first_special(f0.lines, f.idx as int) == first_special(
                            f0.lines,
                            f.idx + 1,
                        ));
                        lemma_flat_snoc(f0.lines, f0.idx, f.idx as int);
                    }
                    let ghost out_pre = f.out@;
                    push_all(&mut f.out, &f.lines[f.idx]);
                    f.out.push(10);
                    let n = f.out.len();
                    proof {
                        assert(f.out@ =~= out_pre + f0.lines[f.idx as int] + seq![10u8]);
                        assert(f.out@ =~= f0.out + flat(f0.lines, f0.idx, f.idx + 1));
                        assert(f.out_lines + 1 <= n);
                    }
                    f.out_lines = f.out_lines + 1;
                    f.idx = f.idx + 1;
                },
                ParsedLine::Inc { path } => {
                    proof {
                        assert(line_good_directive(f0.lines[f.idx as int]));
                        assert(j == f.idx as int);
                    }
                    let resolved = resolve(&f.base, &path);
                    f.pending = f.idx;
                    f.idx = f.idx + 1;
                    proof {
                        let f2 = FrameModel {
                            idx: j + 1,
                            out: f0.out + flat(f0.lines, f0.idx, j),
                            out_lines: f0.out_lines + (j - f0.idx),
                            pending: j,
                            ..f0
                        };
                        assert(f@ =~~= f2);
                        assert(all0.update(all0.len() - 1, f2) =~~= rest.push(f2));
                    }
                    self.stack.push(f);
                    self.phase = Phase::WantCanon;
                    proof {
                        assert(self@.frames =~~= scan_spec(all0).0);
                        assert((ReqModel::Canon { path: resolved@ }) =~~= scan_spec(all0).1);
                    }
                    return PpRequest::Canon { path: resolved };
                },
                ParsedLine::Bad { why } => {
                    proof {
                        assert(line_is_directive(f0.lines[f.idx as int]));
                        assert(j == f.idx as int);
                        assert(why == line_err_kind(f0.lines[f.idx as int]));
                    }
                    let syntax_err = match why {
                        DirectiveErrKind::MissingOpenQuote => include_syntax_error(
                            f.idx,
                            "expected '\"' after #include",
                        ),
                        DirectiveErrKind::MissingCloseQuote => include_syntax_error(
                            f.idx,
                            "expected '\"' at the end of path",
                        ),
                        DirectiveErrKind::MissingSemicolon => include_syntax_error(
                            f.idx,
                            "expected ';' after #include directive",
                        ),
                    };
                    proof {
                        assert(syntax_err@ == (ErrModel::Parser {
                            error: dir_err_msg(line_err_kind(f0.lines[j])),
                            line: j,
                            pos: 0,
                        }));
                    }
                    let e2 = self.unwind(syntax_err);
                    self.phase = Phase::Finished;
                    proof {
                        assert(self@.frames =~~= scan_spec(all0).0);
                        assert((ReqModel::Fail { err: e2@ }) =~~= scan_spec(all0).1);
                    }
                    return PpRequest::Fail { err: e2 };
                },
            }
        }
        proof {
            assert(j == f0.lines.len());
        }
        if self.stack.len() == 0 {
            self.phase = Phase::Finished;
            proof {
                assert(all0.len() == 1);
                assert(self@.frames =~~= scan_spec(all0).0);
                assert((ReqModel::Done { text: f.out@, map: f.map@ }) =~~= scan_spec(all0).1);
            }
            return PpRequest::Done { text: f.out, map: f.map };
        }
        let mut parent = match self.stack.pop() {
            Some(p) => p,
            None => vstd::pervasive::unreached(),
        };
        let ghost parent0 = parent@;
        proof {
            assert(parent0 == rest.last());
            assert(frame_wf(parent0));
        }
        absorb(&mut parent, f.out, f.out_lines);
        self.stack.push(parent);
        proof {
            assert(self@.frames =~~= all0.drop_last().update(
                all0.len() - 2,
                absorb_spec(parent0, f0.out + flat(f0.lines, f0.idx, j), f0.out_lines + (j
                    - f0.idx)),
            ));
            assert(frames_wf(self@.frames));
        }
        let r = self.scan();
        proof {
            assert(scan_spec(all0) == scan_spec(
                all0.drop_last().update(
                    all0.len() - 2,
                    absorb_spec(parent0, f0.out + flat(f0.lines, f0.idx, j), f0.out_lines + (j
                        - f0.idx)),
                ),
            ));
        }
        r
    }

    /// Answers the outstanding request with the driver's reply and returns
    /// the next request, by the transition rule of `step_spec`.
    pub fn step(&mut self, reply: PpReply) -> (r: PpRequest)
        requires
            pp_wf(old(self)@),
            reply_fits(old(self)@, reply@),
        ensures
            pp_wf(final(self)@),
            final(self)@ == step_spec(old(self)@, reply@).0,
            r@ == step_spec(old(self)@, reply@).1,
    {
        let ghost m0 = self@;
        let ghost reply_v = reply@;
        match reply {
            PpReply::Path { canon } => {
                if self.visited_has(&canon) {
                    if self.stack.len() == 0 {
                        self.phase = Phase::Finished;
                        let text: Vec<u8> = Vec::new();
                        let map = SourceMap::new();
                        proof {
                            assert(self@ =~~= step_spec(m0, reply_v).0);
                            assert((ReqModel::Done { text: text@, map: map@ }) =~~= step_spec(
                                m0,
                                reply_v,
                            ).1);
                        }
                        return PpRequest::Done { text, map };
                    }
                    let ghost pre = self@.frames;
                    let mut parent = match self.stack.pop() {
                        Some(p) => p,
                        None => vstd::pervasive::unreached(),
                    };
                    let ghost parent0 = parent@;
                    proof {
                        assert(parent0 == pre.last());
                        assert(frame_wf(parent0));
                    }
                    absorb(&mut parent, Vec::new(), 0);
                    self.stack.push(parent);
                    proof {
                        assert(absorb_spec(parent0, Seq::<u8>::empty(), 0) =~~= absorb_spec(
                            m0.frames.last(),
                            Seq::<u8>::empty(),
                            0,
                        ));
                        assert(self@.frames =~~= m0.frames.update(
                            m0.frames.len() - 1,
                            absorb_spec(m0.frames.last(), Seq::<u8>::empty(), 0),
                        ));
                        assert(frames_wf(self@.frames));
                    }
                    let r = self.scan();
                    proof {
                        assert(self@ =~~= step_spec(m0, reply_v).0);
                    }
                    r
                } else {
                    let c1 = copy_vec(&canon);
                    let c2 = copy_vec(&canon);
                    self.visited.push(c1);
                    self.phase = Phase::WantText { canon: c2 };
                    proof {
                        assert(self@.visited =~~= m0.visited.push(canon@));
                        assert(self@ =~~= step_spec(m0, reply_v).0);
                    }
                    PpRequest::Read { path: canon }
                }
            },
            PpReply::Text { content } => {
                let base = match &self.phase {
                    Phase::WantText { canon } => copy_vec(canon),
                    _ => vstd::pervasive::unreached(),
                };
                let lines = split_lines(&content);
                let frame = Frame {
                    lines,
                    idx: 0,
                    base,
                    out: Vec::new(),
                    out_lines: 0,
                    map: SourceMap::new(),
                    pending: 0,
                };
                proof {
                    assert(frame_wf(frame@));
                }
                self.stack.push(frame);
                proof {
                    assert(self@.frames =~~= m0.frames.push(frame@));
                    assert(frames_wf(self@.frames));
                }
                self.scan()
            },
            PpReply::NoAccess { msg } => {
                let e = WgslError::IoErr(msg);
                let e2 = self.unwind(e);
                self.phase = Phase::Finished;
                proof {
                    assert(self@.frames =~~= Seq::<FrameModel>::empty());
                }
                PpRequest::Fail { err: e2 }
            },
        }
    }
}

/// Begins a preprocessing request for the given root path.  The driver
/// performs each request that comes back, feeding every outcome to `step`,
/// until the flattened buffer with its map, or an error, comes out.
pub fn load_shader_preprocessed(root_path: Vec<u8>) -> (r: (Preprocessor, PpRequest))
    ensures
        pp_wf(r.0@),
        r.0@.visited == Seq::<Seq<u8>>::empty(),
        r.0@.frames == Seq::<FrameModel>::empty(),
        r.0@.phase == PhaseModel::WantCanon,
        r.1@ == (ReqModel::Canon { path: root_path@ }),
{
    let p = Preprocessor { visited: Vec::new(), stack: Vec::new(), phase: Phase::WantCanon };
    proof {
        assert(p@.visited =~~= Seq::<Seq<u8>>::empty());
        assert(p@.frames =~~= Seq::<FrameModel>::empty());
    }
    (p, PpRequest::Canon { path: root_path })
}

pub proof fn lemma_flat_cons_shift(x: Seq<u8>, r: Seq<Seq<u8>>, a: int, b: int)
    requires
        0 <= a <= b <= r.len(),
    ensures
        flat(seq![x] + r, a + 1, b + 1) == flat(r, a, b),
    decreases b - a,
{
    if a < b {
        lemma_flat_cons_shift(x, r, a + 1, b);
        assert((seq![x] + r)[a + 1] == r[a]);
        assert(flat(seq![x] + r, a + 1, b + 1) =~= flat(r, a, b));
    } else {
        assert(flat(seq![x] + r, a + 1, a + 1) =~= flat(r, a, a));
    }
}

/// Splitting a text into lines and writing each line back with one newline
/// reproduces the text, provided it held no carriage returns and ended with
/// a newline: flattening normalizes only line endings.
pub proof fn lemma_flatten_normalized(s: Seq<u8>, p: int)
    requires
        0 <= p <= s.len(),
        forall|k: int| p <= k < s.len() ==> s[k] != 13,
        s.len() > 0 ==> s.last() == 10,
    ensures
        flat(spec_lines_from(s, p), 0, spec_lines_from(s, p).len() as int) == s.subrange(
            p,
            s.len() as int,
        ),
    decreases s.len() - p,
{
    if p >= s.len() {
        assert(flat(spec_lines_from(s, p), 0, 0) =~= s.subrange(p, s.len() as int));
    } else {
        lemma_find_byte(s, 10, p);
        let n = find_byte(s, 10, p);
        assert(s[s.len() - 1] == 10);
        assert(n < s.len());
        let line = s.subrange(p, n);
        assert(strip_cr(line) == line);
        lemma_flatten_normalized(s, n + 1);
        let rest = spec_lines_from(s, n + 1);
        assert(spec_lines_from(s, p) == seq![line] + rest);
        lemma_flat_cons_shift(line, rest, 0, rest.len() as int);
        assert((seq![line] + rest)[0] == line);
        assert(flat(seq![line] + rest, 0, rest.len() as int + 1) =~= line + seq![10u8] + flat(
            seq![line] + rest,
            1,
            rest.len() as int + 1,
        ));
        assert(line + seq![10u8] + s.subrange(n + 1, s.len() as int) =~= s.subrange(
            p,
            s.len() as int,
        ));
    }
}

/// A text none of whose lines is a directive flattens to exactly its own
/// lines, each closed by one newline, with an empty position map, and with
/// an empty map every line translates to itself.  When the text also held
/// no carriage returns and ended with a newline, the flattened buffer is
/// the text itself, byte for byte.
pub proof fn lemma_no_directives_identity(m: PpModel, content: Seq<u8>)
    requires
        m.frames.len() == 0,
        m.phase matches PhaseModel::WantText { .. },
        forall|i: int|
            0 <= i < spec_lines(content).len() ==> !line_is_directive(
                #[trigger] spec_lines(content)[i],
            ),
    ensures
        step_spec(m, (ReplyModel::Text { content })).1 matches ReqModel::Done { text, map }
            && map == Seq::<MapEntry>::empty() && text == flat(
            spec_lines(content),
            0,
            spec_lines(content).len() as int,
        ),
        ((forall|k: int| 0 <= k < content.len() ==> content[k] != 13) && (content.len() > 0
            ==> content.last() == 10)) ==> step_spec(m, (ReplyModel::Text { content })).1 == (
        ReqModel::Done { text: content, map: Seq::<MapEntry>::empty() }),
        forall|l: int| map_line_spec(Seq::<MapEntry>::empty(), l) == l,
{
    let lines = spec_lines(content);
    let f = FrameModel {
        lines,
        idx: 0,
        base: match m.phase {
            PhaseModel::WantText { canon } => canon,
            _ => Seq::empty(),
        },
        out: Seq::empty(),
        out_lines: 0,
        map: Seq::empty(),
        pending: 0,
    };
    let frames = m.frames.push(f);
    assert(frames.last() == f);
    lemma_first_special(lines, 0);
    let j = first_special(lines, 0);
    if j < lines.len() {
        assert(line_is_directive(lines[j]));
        assert(false);
    }
    assert(j == lines.len());
    assert(frames.len() == 1);
    assert(Seq::<u8>::empty() + flat(lines, 0, lines.len() as int) =~= flat(
        lines,
        0,
        lines.len() as int,
    ));
    if (forall|k: int| 0 <= k < content.len() ==> content[k] != 13) && (content.len() > 0
        ==> content.last() == 10) {
        lemma_flatten_normalized(content, 0);
        assert(content.subrange(0, content.len() as int) =~= content);
    }
}

/// Re-inclusion of an already-expanded file contributes no text: the
/// including file gains exactly one separator newline, one more counted
/// line, and a map entry whose output range is empty.
pub proof fn lemma_revisit_contributes_nothing(f: FrameModel)
    ensures
        absorb_spec(f, Seq::<u8>::empty(), 0).out == f.out + seq![10u8],
        absorb_spec(f, Seq::<u8>::empty(), 0).out_lines == f.out_lines + 1,
        absorb_spec(f, Seq::<u8>::empty(), 0).map == f.map.push(
            MapEntry { start: f.out_lines as usize, end: f.out_lines as usize, to: f.pending as usize },
        ),
        absorb_spec(f, Seq::<u8>::empty(), 0).lines == f.lines,
        absorb_spec(f, Seq::<u8>::empty(), 0).idx == f.idx,
{
    assert(f.out + Seq::<u8>::empty() + seq![10u8] =~= f.out + seq![10u8]);
}

pub proof fn lemma_scan_never_reads(frames: Seq<FrameModel>)
    ensures
        !(scan_spec(frames).1 matches ReqModel::Read { .. }),
    decreases frames.len(),
{
    if frames.len() > 0 {
        let f = frames.last();
        let j = first_special(f.lines, f.idx);
        if j >= f.lines.len() && frames.len() > 1 {
            lemma_scan_never_reads(
                frames.drop_last().update(
                    frames.len() - 2,
                    absorb_spec(
                        frames[frames.len() - 2],
                        f.out + flat(f.lines, f.idx, j),
                        f.out_lines + (j - f.idx),
                    ),
                ),
            );
        }
    }
}

/// Every file is expanded at most once: a read is requested only for a path
/// that was not yet visited, that path is recorded as visited by the same
/// step, and the set of visited paths never loses a member.
pub proof fn lemma_expand_once(m: PpModel, reply: ReplyModel)
    requires
        reply_fits(m, reply),
    ensures
        step_spec(m, reply).1 matches ReqModel::Read { path } ==> !m.visited.contains(path)
            && step_spec(m, reply).0.visited == m.visited.push(path),
        forall|p: Seq<u8>|
            m.visited.contains(p) ==> step_spec(m, reply).0.visited.contains(p),
        m.visited.len() <= step_spec(m, reply).0.visited.len(),
{
    match reply {
        ReplyModel::Path { canon } => {
            if !m.visited.contains(canon) {
                assert forall|p: Seq<u8>| m.visited.contains(p) implies m.visited.push(
                    canon,
                ).contains(p) by {
                    let i = choose|i: int| 0 <= i < m.visited.len() && m.visited[i] == p;
                    assert(m.visited.push(canon)[i] == p);
                }
            } else if m.frames.len() > 0 {
                lemma_scan_never_reads(
                    m.frames.update(
                        m.frames.len() - 1,
                        absorb_spec(m.frames.last(), Seq::empty(), 0),
                    ),
                );
            }
        },
        ReplyModel::Text { content } => {
            let base = match m.phase {
                PhaseModel::WantText { canon } => canon,
                _ => Seq::empty(),
            };
            let f = FrameModel {
                lines: spec_lines(content),
                idx: 0,
                base,
                out: Seq::empty(),
                out_lines: 0,
                map: Seq::empty(),
                pending: 0,
            };
            lemma_scan_never_reads(m.frames.push(f));
        },
        ReplyModel::NoAccess { .. } => {},
    }
}

/// A root file whose single directive stands on line `L` and includes a
/// child of `N` lines flattens to: the root's lines before `L`, the child's
/// `N` lines, one separator newline, then the root's remaining lines; the
/// map holds exactly one entry, `(L .. L + N, L)`.  Under that map a line
/// inside the child's span translates to `L`, and a line at or past the
/// span's end translates by the linear offset rule.
pub proof fn lemma_single_child_expansion(
    root_canon: Seq<u8>,
    child_canon: Seq<u8>,
    root_content: Seq<u8>,
    child_content: Seq<u8>,
)
    requires
        root_canon != child_canon,
        first_special(spec_lines(root_content), 0) < spec_lines(root_content).len(),
        line_good_directive(
            spec_lines(root_content)[first_special(spec_lines(root_content), 0)],
        ),
        forall|k: int|
            first_special(spec_lines(root_content), 0) < k < spec_lines(root_content).len()
                ==> !line_is_directive(#[trigger] spec_lines(root_content)[k]),
        forall|i: int|
            0 <= i < spec_lines(child_content).len() ==> !line_is_directive(
                #[trigger] spec_lines(child_content)[i],
            ),
        spec_lines(root_content).len() + spec_lines(child_content).len() < usize::MAX,
    ensures
        ({
            let m0 = PpModel {
                visited: Seq::empty(),
                frames: Seq::empty(),
                phase: PhaseModel::WantCanon,
            };
            let m1 = step_spec(m0, (ReplyModel::Path { canon: root_canon })).0;
            let m2 = step_spec(m1, (ReplyModel::Text { content: root_content })).0;
            let m3 = step_spec(m2, (ReplyModel::Path { canon: child_canon })).0;
            let rl = spec_lines(root_content);
            let cl = spec_lines(child_content);
            let lpos = first_special(rl, 0);
            let n = cl.len() as int;
            let entry = MapEntry {
                start: lpos as usize,
                end: (lpos + n) as usize,
                to: lpos as usize,
            };
            step_spec(m3, (ReplyModel::Text { content: child_content })).1 == (ReqModel::Done {
                text: flat(rl, 0, lpos) + flat(cl, 0, n) + seq![10u8] + flat(
                    rl,
                    lpos + 1,
                    rl.len() as int,
                ),
                map: seq![entry],
            }) && (forall|q: int| lpos <= q < lpos + n ==> map_line_spec(seq![entry], q) == lpos)
                && (forall|q: int|
                lpos + n <= q ==> map_line_spec(seq![entry], q) == q - (lpos + n) + lpos)
        }),
{
    let m0 = PpModel {
        visited: Seq::empty(),
        frames: Seq::empty(),
        phase: PhaseModel::WantCanon,
    };
    let rl = spec_lines(root_content);
    let cl = spec_lines(child_content);
    let lpos = first_special(rl, 0);
    let n = cl.len() as int;
    lemma_first_special(rl, 0);

    assert(!m0.visited.contains(root_canon));
    let m1 = step_spec(m0, (ReplyModel::Path { canon: root_canon })).0;
    assert(m1.visited =~~= seq![root_canon]);
    assert(m1.frames =~~= Seq::<FrameModel>::empty());

    // The root's text arrives: scanning stops at the directive on line lpos.
    let f = FrameModel {
        lines: rl,
        idx: 0,
        base: root_canon,
        out: Seq::empty(),
        out_lines: 0,
        map: Seq::empty(),
        pending: 0,
    };
    let pushed = m1.frames.push(f);
    assert(pushed.last() == f);
    assert(pushed.len() == 1);
    let f2 = FrameModel {
        idx: lpos + 1,
        out: Seq::<u8>::empty() + flat(rl, 0, lpos),
        out_lines: 0 + (lpos - 0),
        pending: lpos,
        ..f
    };
    let m2 = step_spec(m1, (ReplyModel::Text { content: root_content })).0;
    assert(m2.frames =~~= pushed.update(0, f2));
    assert(m2.visited =~~= seq![root_canon]);

    // The child's canonical path is new, so its text is asked for.
    assert(!m2.visited.contains(child_canon)) by {
        if m2.visited.contains(child_canon) {
            let i = choose|i: int|
                0 <= i < m2.visited.len() && m2.visited[i] == child_canon;
            assert(m2.visited[i] == root_canon);
        }
    }
    let m3 = step_spec(m2, (ReplyModel::Path { canon: child_canon })).0;
    assert(m3.frames =~~= m2.frames);
    assert(m3.phase == (PhaseModel::WantText { canon: child_canon }));

    // The child's text arrives, expands without directives, and lands in
    // the root frame, which then runs to its own end.
    let cf = FrameModel {
        lines: cl,
        idx: 0,
        base: child_canon,
        out: Seq::empty(),
        out_lines: 0,
        map: Seq::empty(),
        pending: 0,
    };
    let both = m3.frames.push(cf);
    assert(both.len() == 2);
    assert(both.last() == cf);
    lemma_first_special(cl, 0);
    if first_special(cl, 0) < cl.len() {
        assert(line_is_directive(cl[first_special(cl, 0)]));
        assert(false);
    }
    let child_out = Seq::<u8>::empty() + flat(cl, 0, n);
    let g = absorb_spec(both[0], child_out, n);
    let after = both.drop_last().update(0, g);
    assert(after.len() == 1);
    assert(after.last() == g);
    assert(g.lines == rl);
    assert(g.idx == lpos + 1);
    lemma_first_special(rl, lpos + 1);
    if first_special(rl, lpos + 1) < rl.len() {
        assert(line_is_directive(rl[first_special(rl, lpos + 1)]));
        assert(false);
    }
    let sr = scan_spec(both);
    assert(sr == scan_spec(after));
    assert(sr.1 == (ReqModel::Done {
        text: g.out + flat(rl, lpos + 1, rl.len() as int),
        map: g.map,
    }));
    let entry = MapEntry {
        start: lpos as usize,
        end: (lpos + n) as usize,
        to: lpos as usize,
    };
    assert(g.map =~~= seq![entry]);
    assert(g.out + flat(rl, lpos + 1, rl.len() as int) =~~= flat(rl, 0, lpos) + flat(cl, 0, n)
        + seq![10u8] + flat(rl, lpos + 1, rl.len() as int));
    assert(step_spec(m3, (ReplyModel::Text { content: child_content })).1 == sr.1);

    assert forall|q: int| lpos <= q < lpos + n implies map_line_spec(seq![entry], q)
        == lpos by {
        lemma_map_line_single(entry, q);
    }
    assert forall|q: int| lpos + n <= q implies map_line_spec(seq![entry], q) == q - (lpos + n)
        + lpos by {
        lemma_map_line_single(entry, q);
    }
}

/// A file that includes itself terminates: when the directive on line `L`
/// of the root resolves back to the root's own canonical path, the second
/// occurrence contributes zero lines — the output is the root's lines with
/// one bare separator newline in the directive's place, and the map's one
/// entry has an empty output range.
pub proof fn lemma_self_inclusion_terminates(root_canon: Seq<u8>, root_content: Seq<u8>)
    requires
        first_special(spec_lines(root_content), 0) < spec_lines(root_content).len(),
        line_good_directive(
            spec_lines(root_content)[first_special(spec_lines(root_content), 0)],
        ),
        forall|k: int|
            first_special(spec_lines(root_content), 0) < k < spec_lines(root_content).len()
                ==> !line_is_directive(#[trigger] spec_lines(root_content)[k]),
        spec_lines(root_content).len() < usize::MAX,
    ensures
        ({
            let m0 = PpModel {
                visited: Seq::empty(),
                frames: Seq::empty(),
                phase: PhaseModel::WantCanon,
            };
            let m1 = step_spec(m0, (ReplyModel::Path { canon: root_canon })).0;
            let m2 = step_spec(m1, (ReplyModel::Text { content: root_content })).0;
            let rl = spec_lines(root_content);
            let lpos = first_special(rl, 0);
            let entry = MapEntry { start: lpos as usize, end: lpos as usize, to: lpos as usize };
            step_spec(m2, (ReplyModel::Path { canon: root_canon })).1 == (ReqModel::Done {
                text: flat(rl, 0, lpos) + seq![10u8] + flat(rl, lpos + 1, rl.len() as int),
                map: seq![entry],
            })
        }),
{
    let m0 = PpModel {
        visited: Seq::empty(),
        frames: Seq::empty(),
        phase: PhaseModel::WantCanon,
    };
    let rl = spec_lines(root_content);
    let lpos = first_special(rl, 0);
    lemma_first_special(rl, 0);

    assert(!m0.visited.contains(root_canon));
    let m1 = step_spec(m0, (ReplyModel::Path { canon: root_canon })).0;
    assert(m1.visited =~~= seq![root_canon]);
    assert(m1.frames =~~= Seq::<FrameModel>::empty());

    let f = FrameModel {
        lines: rl,
        idx: 0,
        base: root_canon,
        out: Seq::empty(),
        out_lines: 0,
        map: Seq::empty(),
        pending: 0,
    };
    let pushed = m1.frames.push(f);
    assert(pushed.last() == f);
    assert(pushed.len() == 1);
    let f2 = FrameModel {
        idx: lpos + 1,
        out: Seq::<u8>::empty() + flat(rl, 0, lpos),
        out_lines: 0 + (lpos - 0),
        pending: lpos,
        ..f
    };
    let m2 = step_spec(m1, (ReplyModel::Text { content: root_content })).0;
    assert(m2.frames =~~= pushed.update(0, f2));
    assert(m2.visited =~~= seq![root_canon]);

    // The root's own canonical path comes back: it is already visited, so
    // an empty child lands in the root frame, which then runs to its end.
    assert(m2.visited.contains(root_canon)) by {
        assert(m2.visited[0] == root_canon);
    }
    let g = absorb_spec(m2.frames.last(), Seq::empty(), 0);
    let after = m2.frames.update(0, g);
    assert(after.len() == 1);
    assert(after.last() == g);
    assert(g.lines == rl);
    assert(g.idx == lpos + 1);
    lemma_first_special(rl, lpos + 1);
    if first_special(rl, lpos + 1) < rl.len() {
        assert(line_is_directive(rl[first_special(rl, lpos + 1)]));
        assert(false);
    }
    let sr = scan_spec(after);
    assert(sr.1 == (ReqModel::Done {
        text: g.out + flat(rl, lpos + 1, rl.len() as int),
        map: g.map,
    }));
    let entry = MapEntry { start: lpos as usize, end: lpos as usize, to: lpos as usize };
    assert(g.map =~~= seq![entry]);
    assert(g.out + flat(rl, lpos + 1, rl.len() as int) =~~= flat(rl, 0, lpos) + seq![10u8] + flat(
        rl,
        lpos + 1,
        rl.len() as int,
    ));
}

/// An inclusion cycle of length two terminates: when file `a`'s single
/// directive resolves to file `b` and `b`'s single directive resolves back
/// to `a`, the run ends in `Done`; `b`'s re-inclusion of `a` contributes
/// only a separator newline, and the root's map records `b`'s whole
/// expansion under the one directive line of `a`.
pub proof fn lemma_cycle_of_two_terminates(
    a_canon: Seq<u8>,
    b_canon: Seq<u8>,
    a_content: Seq<u8>,
    b_content: Seq<u8>,
)
    requires
        a_canon != b_canon,
        first_special(spec_lines(a_content), 0) < spec_lines(a_content).len(),
        line_good_directive(spec_lines(a_content)[first_special(spec_lines(a_content), 0)]),
        forall|k: int|
            first_special(spec_lines(a_content), 0) < k < spec_lines(a_content).len()
                ==> !line_is_directive(#[trigger] spec_lines(a_content)[k]),
        first_special(spec_lines(b_content), 0) < spec_lines(b_content).len(),
        line_good_directive(spec_lines(b_content)[first_special(spec_lines(b_content), 0)]),
        forall|k: int|
            first_special(spec_lines(b_content), 0) < k < spec_lines(b_content).len()
                ==> !line_is_directive(#[trigger] spec_lines(b_content)[k]),
        spec_lines(a_content).len() + spec_lines(b_content).len() < usize::MAX,
    ensures
        ({
            let m0 = PpModel {
                visited: Seq::empty(),
                frames: Seq::empty(),
                phase: PhaseModel::WantCanon,
            };
            let m1 = step_spec(m0, (ReplyModel::Path { canon: a_canon })).0;
            let m2 = step_spec(m1, (ReplyModel::Text { content: a_content })).0;
            let m3 = step_spec(m2, (ReplyModel::Path { canon: b_canon })).0;
            let m4 = step_spec(m3, (ReplyModel::Text { content: b_content })).0;
            let al = spec_lines(a_content);
            let bl = spec_lines(b_content);
            let la = first_special(al, 0);
            let lb = first_special(bl, 0);
            let entry = MapEntry {
                start: la as usize,
                end: (la + bl.len()) as usize,
                to: la as usize,
            };
            step_spec(m4, (ReplyModel::Path { canon: a_canon })).1 == (ReqModel::Done {
                text: flat(al, 0, la) + flat(bl, 0, lb) + seq![10u8] + flat(
                    bl,
                    lb + 1,
                    bl.len() as int,
                ) + seq![10u8] + flat(al, la + 1, al.len() as int),
                map: seq![entry],
            })
        }),
{
    let m0 = PpModel {
        visited: Seq::empty(),
        frames: Seq::empty(),
        phase: PhaseModel::WantCanon,
    };
    let al = spec_lines(a_content);
    let bl = spec_lines(b_content);
    let la = first_special(al, 0);
    let lb = first_special(bl, 0);
    lemma_first_special(al, 0);
    lemma_first_special(bl, 0);

    assert(!m0.visited.contains(a_canon));
    let m1 = step_spec(m0, (ReplyModel::Path { canon: a_canon })).0;
    assert(m1.visited =~~= seq![a_canon]);
    assert(m1.frames =~~= Seq::<FrameModel>::empty());

    // a's text arrives: scanning stops at its directive on line la.
    let fa = FrameModel {
        lines: al,
        idx: 0,
        base: a_canon,
        out: Seq::empty(),
        out_lines: 0,
        map: Seq::empty(),
        pending: 0,
    };
    let pushed_a = m1.frames.push(fa);
    assert(pushed_a.last() == fa);
    assert(pushed_a.len() == 1);
    let fa2 = FrameModel {
        idx: la + 1,
        out: Seq::<u8>::empty() + flat(al, 0, la),
        out_lines: 0 + (la - 0),
        pending: la,
        ..fa
    };
    let m2 = step_spec(m1, (ReplyModel::Text { content: a_content })).0;
    assert(m2.frames =~~= pushed_a.update(0, fa2));
    assert(m2.visited =~~= seq![a_canon]);

    // b's canonical path is new: its text is asked for.
    assert(!m2.visited.contains(b_canon)) by {
        if m2.visited.contains(b_canon) {
            let i = choose|i: int| 0 <= i < m2.visited.len() && m2.visited[i] == b_canon;
            assert(m2.visited[i] == a_canon);
        }
    }
    let m3 = step_spec(m2, (ReplyModel::Path { canon: b_canon })).0;
    assert(m3.frames =~~= m2.frames);
    assert(m3.phase == (PhaseModel::WantText { canon: b_canon }));
    assert(m3.visited =~~= seq![a_canon, b_canon]);

    // b's text arrives: scanning stops at its directive on line lb.
    let fb = FrameModel {
        lines: bl,
        idx: 0,
        base: b_canon,
        out: Seq::empty(),
        out_lines: 0,
        map: Seq::empty(),
        pending: 0,
    };
    let pushed_b = m3.frames.push(fb);
    assert(pushed_b.len() == 2);
    assert(pushed_b.last() == fb);
    let fb2 = FrameModel {
        idx: lb + 1,
        out: Seq::<u8>::empty() + flat(bl, 0, lb),
        out_lines: 0 + (lb - 0),
        pending: lb,
        ..fb
    };
    let m4 = step_spec(m3, (ReplyModel::Text { content: b_content })).0;
    assert(m4.frames =~~= pushed_b.update(1, fb2));
    assert(m4.visited =~~= seq![a_canon, b_canon]);
    assert(m4.frames.len() == 2);
    assert(m4.frames.last() == fb2);
    assert(m4.frames[0] == fa2);

    // a's canonical path comes back: already visited, so an empty child
    // lands in b's frame, b runs to its end, lands in a's frame, and a
    // runs to its own end.
    assert(m4.visited.contains(a_canon)) by {
        assert(m4.visited[0] == a_canon);
    }
    let gb = absorb_spec(fb2, Seq::empty(), 0);
    let fr2 = m4.frames.update(1, gb);
    assert(fr2.len() == 2);
    assert(fr2.last() == gb);
    assert(fr2[0] == fa2);
    assert(gb.lines == bl);
    assert(gb.idx == lb + 1);
    lemma_first_special(bl, lb + 1);
    if first_special(bl, lb + 1) < bl.len() {
        assert(line_is_directive(bl[first_special(bl, lb + 1)]));
        assert(false);
    }
    let b_out = gb.out + flat(bl, lb + 1, bl.len() as int);
    let b_lines = gb.out_lines + (bl.len() - (lb + 1));
    assert(b_lines == bl.len());
    let ga = absorb_spec(fa2, b_out, b_lines);
    let fr3 = fr2.drop_last().update(0, ga);
    assert(scan_spec(fr2) == scan_spec(fr3));
    assert(fr3.len() == 1);
    assert(fr3.last() == ga);
    assert(ga.lines == al);
    assert(ga.idx == la + 1);
    lemma_first_special(al, la + 1);
    if first_special(al, la + 1) < al.len() {
        assert(line_is_directive(al[first_special(al, la + 1)]));
        assert(false);
    }
    let sr = scan_spec(fr3);
    assert(sr.1 == (ReqModel::Done {
        text: ga.out + flat(al, la + 1, al.len() as int),
        map: ga.map,
    }));
    let entry = MapEntry {
        start: la as usize,
        end: (la + bl.len()) as usize,
        to: la as usize,
    };
    assert(ga.map =~~= seq![entry]);
    assert(ga.out + flat(al, la + 1, al.len() as int) =~~= flat(al, 0, la) + flat(bl, 0, lb)
        + seq![10u8] + flat(bl, lb + 1, bl.len() as int) + seq![10u8] + flat(
        al,
        la + 1,
        al.len() as int,
    ));
}

/// Diamond inclusion expands the shared file once: when the root includes
/// `a` on line `l1` and `b` on line `l2`, and each of `a` and `b` includes
/// the same file `c`, the run ends in `Done` with `c`'s text appearing
/// exactly once, inside `a`'s expansion; `b`'s inclusion of `c` contributes
/// only a separator newline.
#[verifier::rlimit(100)]
pub proof fn lemma_diamond_expands_once(
    root_canon: Seq<u8>,
    a_canon: Seq<u8>,
    b_canon: Seq<u8>,
    c_canon: Seq<u8>,
    root_content: Seq<u8>,
    a_content: Seq<u8>,
    b_content: Seq<u8>,
    c_content: Seq<u8>,
)
    requires
        root_canon != a_canon && root_canon != b_canon && root_canon != c_canon,
        a_canon != b_canon && a_canon != c_canon && b_canon != c_canon,
        first_special(spec_lines(root_content), 0) < spec_lines(root_content).len(),
        line_good_directive(
            spec_lines(root_content)[first_special(spec_lines(root_content), 0)],
        ),
        first_special(spec_lines(root_content), first_special(spec_lines(root_content), 0) + 1)
            < spec_lines(root_content).len(),
        line_good_directive(
            spec_lines(root_content)[first_special(
                spec_lines(root_content),
                first_special(spec_lines(root_content), 0) + 1,
            )],
        ),
        forall|k: int|
            first_special(spec_lines(root_content), first_special(spec_lines(root_content), 0) + 1)
                < k < spec_lines(root_content).len() ==> !line_is_directive(
                #[trigger] spec_lines(root_content)[k],
            ),
        first_special(spec_lines(a_content), 0) < spec_lines(a_content).len(),
        line_good_directive(spec_lines(a_content)[first_special(spec_lines(a_content), 0)]),
        forall|k: int|
            first_special(spec_lines(a_content), 0) < k < spec_lines(a_content).len()
                ==> !line_is_directive(#[trigger] spec_lines(a_content)[k]),
        first_special(spec_lines(b_content), 0) < spec_lines(b_content).len(),
        line_good_directive(spec_lines(b_content)[first_special(spec_lines(b_content), 0)]),
        forall|k: int|
            first_special(spec_lines(b_content), 0) < k < spec_lines(b_content).len()
                ==> !line_is_directive(#[trigger] spec_lines(b_content)[k]),
        forall|i: int|
            0 <= i < spec_lines(c_content).len() ==> !line_is_directive(
                #[trigger] spec_lines(c_content)[i],
            ),
        spec_lines(root_content).len() + spec_lines(a_content).len() + spec_lines(
            b_content,
        ).len() + spec_lines(c_content).len() < usize::MAX,
    ensures
        ({
            let m0 = PpModel {
                visited: Seq::empty(),
                frames: Seq::empty(),
                phase: PhaseModel::WantCanon,
            };
            let m1 = step_spec(m0, (ReplyModel::Path { canon: root_canon })).0;
            let m2 = step_spec(m1, (ReplyModel::Text { content: root_content })).0;
            let m3 = step_spec(m2, (ReplyModel::Path { canon: a_canon })).0;
            let m4 = step_spec(m3, (ReplyModel::Text { content: a_content })).0;
            let m5 = step_spec(m4, (ReplyModel::Path { canon: c_canon })).0;
            let m6 = step_spec(m5, (ReplyModel::Text { content: c_content })).0;
            let m7 = step_spec(m6, (ReplyModel::Path { canon: b_canon })).0;
            let m8 = step_spec(m7, (ReplyModel::Text { content: b_content })).0;
            let rl = spec_lines(root_content);
            let al = spec_lines(a_content);
            let bl = spec_lines(b_content);
            let cl = spec_lines(c_content);
            let l1 = first_special(rl, 0);
            let l2 = first_special(rl, l1 + 1);
            let la = first_special(al, 0);
            let lb = first_special(bl, 0);
            let e1 = MapEntry {
                start: l1 as usize,
                end: (l1 + al.len() + cl.len()) as usize,
                to: l1 as usize,
            };
            let e2 = MapEntry {
                start: (l2 + al.len() + cl.len()) as usize,
                end: (l2 + al.len() + cl.len() + bl.len()) as usize,
                to: l2 as usize,
            };
            step_spec(m8, (ReplyModel::Path { canon: c_canon })).1 == (ReqModel::Done {
                text: flat(rl, 0, l1) + flat(al, 0, la) + flat(cl, 0, cl.len() as int)
                    + seq![10u8] + flat(al, la + 1, al.len() as int) + seq![10u8] + flat(
                    rl,
                    l1 + 1,
                    l2,
                ) + flat(bl, 0, lb) + seq![10u8] + flat(bl, lb + 1, bl.len() as int)
                    + seq![10u8] + flat(rl, l2 + 1, rl.len() as int),
                map: seq![e1, e2],
            })
        }),
{
    let m0 = PpModel {
        visited: Seq::empty(),
        frames: Seq::empty(),
        phase: PhaseModel::WantCanon,
    };
    let rl = spec_lines(root_content);
    let al = spec_lines(a_content);
    let bl = spec_lines(b_content);
    let cl = spec_lines(c_content);
    let l1 = first_special(rl, 0);
    let l2 = first_special(rl, l1 + 1);
    let la = first_special(al, 0);
    let lb = first_special(bl, 0);
    lemma_first_special(rl, 0);
    lemma_first_special(rl, l1 + 1);
    lemma_first_special(al, 0);
    lemma_first_special(bl, 0);
    lemma_first_special(cl, 0);

    assert(!m0.visited.contains(root_canon));
    let m1 = step_spec(m0, (ReplyModel::Path { canon: root_canon })).0;
    assert(m1.visited =~~= seq![root_canon]);
    assert(m1.frames =~~= Seq::<FrameModel>::empty());

    // The root's text arrives: scanning stops at its first directive.
    let fr = FrameModel {
        lines: rl,
        idx: 0,
        base: root_canon,
        out: Seq::empty(),
        out_lines: 0,
        map: Seq::empty(),
        pending: 0,
    };
    assert(m1.frames.push(fr).last() == fr);
    assert(m1.frames.push(fr).len() == 1);
    let fr2 = FrameModel {
        idx: l1 + 1,
        out: Seq::<u8>::empty() + flat(rl, 0, l1),
        out_lines: 0 + (l1 - 0),
        pending: l1,
        ..fr
    };
    let m2 = step_spec(m1, (ReplyModel::Text { content: root_content })).0;
    assert(m2.frames =~~= m1.frames.push(fr).update(0, fr2));
    assert(m2.visited =~~= seq![root_canon]);

    // a is new: its text is asked for and scanned to its directive.
    assert(!m2.visited.contains(a_canon)) by {
        if m2.visited.contains(a_canon) {
            let i = choose|i: int| 0 <= i < m2.visited.len() && m2.visited[i] == a_canon;
            assert(m2.visited[i] == root_canon);
        }
    }
    let m3 = step_spec(m2, (ReplyModel::Path { canon: a_canon })).0;
    assert(m3.frames =~~= m2.frames);
    assert(m3.visited =~~= seq![root_canon, a_canon]);
    assert(m3.phase == (PhaseModel::WantText { canon: a_canon }));

    let fa = FrameModel {
        lines: al,
        idx: 0,
        base: a_canon,
        out: Seq::empty(),
        out_lines: 0,
        map: Seq::empty(),
        pending: 0,
    };
    assert(m3.frames.push(fa).last() == fa);
    assert(m3.frames.push(fa).len() == 2);
    let fa2 = FrameModel {
        idx: la + 1,
        out: Seq::<u8>::empty() + flat(al, 0, la),
        out_lines: 0 + (la - 0),
        pending: la,
        ..fa
    };
    let m4 = step_spec(m3, (ReplyModel::Text { content: a_content })).0;
    assert(m4.frames =~~= m3.frames.push(fa).update(1, fa2));
    assert(m4.visited =~~= seq![root_canon, a_canon]);
    assert(m4.frames.len() == 2);
    assert(m4.frames[0] == fr2);
    assert(m4.frames.last() == fa2);

    // c is new too: its text is asked for.
    assert(!m4.visited.contains(c_canon)) by {
        if m4.visited.contains(c_canon) {
            let i = choose|i: int| 0 <= i < m4.visited.len() && m4.visited[i] == c_canon;
            assert(m4.visited[i] == root_canon || m4.visited[i] == a_canon);
        }
    }
    let m5 = step_spec(m4, (ReplyModel::Path { canon: c_canon })).0;
    assert(m5.frames =~~= m4.frames);
    assert(m5.visited =~~= seq![root_canon, a_canon, c_canon]);
    assert(m5.phase == (PhaseModel::WantText { canon: c_canon }));

    // c's text arrives: it has no directives, so it completes, lands in
    // a's frame, a runs to its end and lands in the root's frame, and the
    // root scans on to its second directive.
    let fc = FrameModel {
        lines: cl,
        idx: 0,
        base: c_canon,
        out: Seq::empty(),
        out_lines: 0,
        map: Seq::empty(),
        pending: 0,
    };
    let three = m5.frames.push(fc);
    assert(three.len() == 3);
    assert(three.last() == fc);
    if first_special(cl, 0) < cl.len() {
        assert(line_is_directive(cl[first_special(cl, 0)]));
        assert(false);
    }
    let c_out = Seq::<u8>::empty() + flat(cl, 0, cl.len() as int);
    let ga = absorb_spec(fa2, c_out, cl.len() as int);
    let two = three.drop_last().update(1, ga);
    assert(scan_spec(three) == scan_spec(two));
    assert(two.len() == 2);
    assert(two.last() == ga);
    assert(two[0] == fr2);
    assert(ga.lines == al);
    assert(ga.idx == la + 1);
    lemma_first_special(al, la + 1);
    if first_special(al, la + 1) < al.len() {
        assert(line_is_directive(al[first_special(al, la + 1)]));
        assert(false);
    }
    let a_out = ga.out + flat(al, la + 1, al.len() as int);
    let a_lines = ga.out_lines + (al.len() - (la + 1));
    assert(a_lines == al.len() + cl.len());
    let gr = absorb_spec(fr2, a_out, a_lines);
    let one = two.drop_last().update(0, gr);
    assert(scan_spec(two) == scan_spec(one));
    assert(one.len() == 1);
    assert(one.last() == gr);
    assert(gr.lines == rl);
    assert(gr.idx == l1 + 1);
    let gr2 = FrameModel {
        idx: l2 + 1,
        out: gr.out + flat(rl, l1 + 1, l2),
        out_lines: gr.out_lines + (l2 - (l1 + 1)),
        pending: l2,
        ..gr
    };
    let m6 = step_spec(m5, (ReplyModel::Text { content: c_content })).0;
    assert(m6.frames =~~= one.update(0, gr2));
    assert(m6.visited =~~= seq![root_canon, a_canon, c_canon]);
    assert(m6.frames.len() == 1);
    assert(m6.frames[0] == gr2);

    // b is new: its text is asked for and scanned to its directive.
    assert(!m6.visited.contains(b_canon)) by {
        if m6.visited.contains(b_canon) {
            let i = choose|i: int| 0 <= i < m6.visited.len() && m6.visited[i] == b_canon;
            assert(m6.visited[i] == root_canon || m6.visited[i] == a_canon || m6.visited[i]
                == c_canon);
        }
    }
    let m7 = step_spec(m6, (ReplyModel::Path { canon: b_canon })).0;
    assert(m7.frames =~~= m6.frames);
    assert(m7.visited =~~= seq![root_canon, a_canon, c_canon, b_canon]);
    assert(m7.phase == (PhaseModel::WantText { canon: b_canon }));

    let fb = FrameModel {
        lines: bl,
        idx: 0,
        base: b_canon,
        out: Seq::empty(),
        out_lines: 0,
        map: Seq::empty(),
        pending: 0,
    };
    assert(m7.frames.push(fb).last() == fb);
    assert(m7.frames.push(fb).len() == 2);
    let fb2 = FrameModel {
        idx: lb + 1,
        out: Seq::<u8>::empty() + flat(bl, 0, lb),
        out_lines: 0 + (lb - 0),
        pending: lb,
        ..fb
    };
    let m8 = step_spec(m7, (ReplyModel::Text { content: b_content })).0;
    assert(m8.frames =~~= m7.frames.push(fb).update(1, fb2));
    assert(m8.frames.len() == 2);
    assert(m8.frames[0] == gr2);
    assert(m8.frames.last() == fb2);

    // c's canonical path comes back a second time: already visited, so b
    // gains only the separator, runs to its end, lands in the root's frame,
    // and the root runs to its own end.
    assert(m8.visited.contains(c_canon)) by {
        assert(m8.visited[2] == c_canon);
    }
    let gb = absorb_spec(fb2, Seq::empty(), 0);
    let fr8 = m8.frames.update(1, gb);
    assert(fr8.len() == 2);
    assert(fr8.last() == gb);
    assert(fr8[0] == gr2);
    assert(gb.lines == bl);
    assert(gb.idx == lb + 1);
    lemma_first_special(bl, lb + 1);
    if first_special(bl, lb + 1) < bl.len() {
        assert(line_is_directive(bl[first_special(bl, lb + 1)]));
        assert(false);
    }
    let b_out = gb.out + flat(bl, lb + 1, bl.len() as int);
    let b_lines = gb.out_lines + (bl.len() - (lb + 1));
    assert(b_lines == bl.len());
    let gr3 = absorb_spec(gr2, b_out, b_lines);
    let last_one = fr8.drop_last().update(0, gr3);
    assert(scan_spec(fr8) == scan_spec(last_one));
    assert(last_one.len() == 1);
    assert(last_one.last() == gr3);
    assert(gr3.lines == rl);
    assert(gr3.idx == l2 + 1);
    lemma_first_special(rl, l2 + 1);
    if first_special(rl, l2 + 1) < rl.len() {
        assert(line_is_directive(rl[first_special(rl, l2 + 1)]));
        assert(false);
    }
    let sr = scan_spec(last_one);
    assert(sr.1 == (ReqModel::Done {
        text: gr3.out + flat(rl, l2 + 1, rl.len() as int),
        map: gr3.map,
    }));
    let e1 = MapEntry {
        start: l1 as usize,
        end: (l1 + al.len() + cl.len()) as usize,
        to: l1 as usize,
    };
    let e2 = MapEntry {
        start: (l2 + al.len() + cl.len()) as usize,
        end: (l2 + al.len() + cl.len() + bl.len()) as usize,
        to: l2 as usize,
    };
    assert(gr3.map =~~= seq![e1, e2]);
    assert(gr3.out + flat(rl, l2 + 1, rl.len() as int) =~~= flat(rl, 0, l1) + flat(al, 0, la)
        + flat(cl, 0, cl.len() as int) + seq![10u8] + flat(al, la + 1, al.len() as int)
        + seq![10u8] + flat(rl, l1 + 1, l2) + flat(bl, 0, lb) + seq![10u8] + flat(
        bl,
        lb + 1,
        bl.len() as int,
    ) + seq![10u8] + flat(rl, l2 + 1, rl.len() as int));
}

/// Resolves an included path against the including file's path.
pub fn resolve(base: &Vec<u8>, rel: &Vec<u8>) -> (r: Vec<u8>)
    ensures
        r@ == resolve_spec(base@, rel@),
{
    if rel.len() > 0 && rel[0] == 47 {
        return copy_vec(rel);
    }
    let cut = dir_cut(base);
    proof {
        lemma_dir_prefix_len(base@);
    }
    let mut r: Vec<u8> = Vec::new();
    let mut k: usize = 0;
    while k < cut
        invariant
            k <= cut <= base.len(),
            r@ == base@.subrange(0, k as int),
        decreases cut - k,
    {
        r.push(base[k]);
        proof {
            assert(base@.subrange(0, k + 1) =~= base@.subrange(0, k as int).push(base@[k as int]));
        }
        k = k + 1;
    }
    proof {
        assert(r@ =~= base@.take(cut as int));
    }
    push_all(&mut r, rel);
    r
}

} // verus!

