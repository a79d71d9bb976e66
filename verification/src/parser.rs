//! The unified-diff parser: recognises file headers, hunk headers and
//! metadata, classifies content lines, and folds a diff text into a
//! [`crate::model::FileChangeSet`].
use vstd::prelude::*;

use crate::text::{
    bytes_have_prefix, has_prefix, spec_lines, split_lines, strip_ansi, strip_ansi_bytes, AT,
    COMMA, DASH, NINE, PLUS, SP, ZERO,
};
use crate::model::{
    base_rec_wf, entry_wf, fcs_wf, head_rec_wf, recs_increasing, EntryModel, FileChangeSet,
    FileEntry, LineKind, LineRecord, RecModel,
};
use vstd::pervasive::VecAdditionalExecFns;

verus! {

/// Why a diff text was rejected: a hunk header whose counts are not numeric,
/// a hunk header that steps back over lines already recorded, or a line
/// number that does not fit the machine.
#[derive(Clone, Copy, PartialEq, Eq, Structural, Debug)]
pub enum ParseError {
    MalformedHunkHeader,
    HunkOutOfOrder,
    NumberOverflow,
}

/// The bytes of `diff --git a/`.
pub open spec fn fh_prefix() -> Seq<u8> {
    seq![100u8, 105u8, 102u8, 102u8, 32u8, 45u8, 45u8, 103u8, 105u8, 116u8, 32u8, 97u8, 47u8]
}

/// The bytes of `@@ -`.
pub open spec fn hunk_prefix() -> Seq<u8> {
    seq![64u8, 64u8, 32u8, 45u8]
}

/// The bytes of `index`.
pub open spec fn index_prefix() -> Seq<u8> {
    seq![105u8, 110u8, 100u8, 101u8, 120u8]
}

/// The bytes of `---`.
pub open spec fn dashes_prefix() -> Seq<u8> {
    seq![45u8, 45u8, 45u8]
}

/// The bytes of `+++`.
pub open spec fn pluses_prefix() -> Seq<u8> {
    seq![43u8, 43u8, 43u8]
}

/// The bytes of `@@`.
pub open spec fn atat_prefix() -> Seq<u8> {
    seq![64u8, 64u8]
}

/// The bytes of `new`.
pub open spec fn new_prefix() -> Seq<u8> {
    seq![110u8, 101u8, 119u8]
}

/// A ` b/` separator stands at offset `k` of a file header line, leaving a
/// non-empty path before it and a non-empty path after it.
pub open spec fn sep_at(l: Seq<u8>, k: int) -> bool {
    &&& 14 <= k
    &&& k + 3 < l.len()
    &&& l[k] == SP
    &&& l[k + 1] == 98u8
    &&& l[k + 2] == 47u8
}

/// The greatest separator offset at most `k`, or -1 when there is none.
pub open spec fn last_sep_from(l: Seq<u8>, k: int) -> int
    decreases (if k < 14 { 0int } else { k }),
{
    if k < 14 {
        -1
    } else if sep_at(l, k) {
        k
    } else {
        last_sep_from(l, k - 1)
    }
}

proof fn lemma_last_sep_none(l: Seq<u8>, k: int)
    requires
        forall|j: int| 14 <= j <= k ==> !sep_at(l, j),
    ensures
        last_sep_from(l, k) == -1,
    decreases (if k < 14 { 0int } else { k }),
{
    if k >= 14 {
        lemma_last_sep_none(l, k - 1);
    }
}

proof fn lemma_last_sep_found(l: Seq<u8>, k: int, m: int)
    requires
        14 <= m <= k,
        sep_at(l, m),
        forall|j: int| m < j <= k ==> !sep_at(l, j),
    ensures
        last_sep_from(l, k) == m,
    decreases (if k < 14 { 0int } else { k }),
{
    if k > m {
        lemma_last_sep_found(l, k - 1, m);
    }
}

/// The line announces a new file section: `diff --git a/<path> b/<path>`,
/// both paths non-empty. The path is everything between `a/` and the last
/// ` b/` separator, as a greedy match takes it.
pub open spec fn is_file_header(l: Seq<u8>) -> bool {
    has_prefix(l, fh_prefix()) && last_sep_from(l, l.len() - 4) >= 0
}

/// The `a/` path of a file header line.
pub open spec fn fh_path(l: Seq<u8>) -> Seq<u8> {
    l.subrange(13, last_sep_from(l, l.len() - 4))
}

/// Recognises a file header line and extracts its path.
pub fn parse_file_header(l: &Vec<u8>) -> (r: Option<Vec<u8>>)
    ensures
        match r {
            Some(p) => is_file_header(l@) && p@ == fh_path(l@),
            None => !is_file_header(l@),
        },
{
    let mut prefix: Vec<u8> = Vec::new();
    prefix.push(100u8);
    prefix.push(105u8);
    prefix.push(102u8);
    prefix.push(102u8);
    prefix.push(32u8);
    prefix.push(45u8);
    prefix.push(45u8);
    prefix.push(103u8);
    prefix.push(105u8);
    prefix.push(116u8);
    prefix.push(32u8);
    prefix.push(97u8);
    prefix.push(47u8);
    proof {
        assert(prefix@ =~= fh_prefix());
    }
    if !bytes_have_prefix(l, &prefix) {
        return None;
    }
    if l.len() < 18 {
        proof {
            lemma_last_sep_none(l@, l@.len() - 4);
        }
        return None;
    }
    // scan for the last ` b/` separator, from the end
    let n = l.len();
    let mut k: usize = n - 4;
    loop
        invariant
            14 <= k <= n - 4,
            n == l@.len(),
            l@.len() >= 18,
            has_prefix(l@, fh_prefix()),
            forall|j: int| k < j <= l@.len() - 4 ==> !sep_at(l@, j),
        decreases k,
    {
        if l[k] == SP && l[k + 1] == 98u8 && l[k + 2] == 47u8 {
            proof {
                assert(sep_at(l@, k as int));
                lemma_last_sep_found(l@, l@.len() - 4, k as int);
            }
            // copy the path bytes between `a/` and the separator
            let mut path: Vec<u8> = Vec::new();
            let mut i: usize = 13;
            while i < k
                invariant
                    13 <= i <= k < l@.len(),
                    path@ == l@.subrange(13, i as int),
                    is_file_header(l@),
                    last_sep_from(l@, l@.len() - 4) == k as int,
                decreases k - i,
            {
                path.push(l[i]);
                proof {
                    assert(path@ =~= l@.subrange(13, i + 1));
                }
                i += 1;
            }
            return Some(path);
        }
        if k == 14 {
            proof {
                assert forall|j: int| 14 <= j <= l@.len() - 4 implies !sep_at(l@, j) by {}
                lemma_last_sep_none(l@, l@.len() - 4);
            }
            return None;
        }
        k -= 1;
    }
}

/// The line is skipped metadata: `index`, `---`, `+++`, `@@` or `new`.
pub open spec fn is_meta(l: Seq<u8>) -> bool {
    ||| has_prefix(l, index_prefix())
    ||| has_prefix(l, dashes_prefix())
    ||| has_prefix(l, pluses_prefix())
    ||| has_prefix(l, atat_prefix())
    ||| has_prefix(l, new_prefix())
}

/// Runtime metadata test.
pub fn is_meta_line(l: &Vec<u8>) -> (r: bool)
    ensures
        r == is_meta(l@),
{
    if l.len() >= 5 && l[0] == 105u8 && l[1] == 110u8 && l[2] == 100u8 && l[3] == 101u8 && l[4]
        == 120u8 {
        proof {
            assert(has_prefix(l@, index_prefix()));
        }
        return true;
    }
    if l.len() >= 3 && l[0] == DASH && l[1] == DASH && l[2] == DASH {
        proof {
            assert(has_prefix(l@, dashes_prefix()));
        }
        return true;
    }
    if l.len() >= 3 && l[0] == PLUS && l[1] == PLUS && l[2] == PLUS {
        proof {
            assert(has_prefix(l@, pluses_prefix()));
        }
        return true;
    }
    if l.len() >= 2 && l[0] == AT && l[1] == AT {
        proof {
            assert(has_prefix(l@, atat_prefix()));
        }
        return true;
    }
    if l.len() >= 3 && l[0] == 110u8 && l[1] == 101u8 && l[2] == 119u8 {
        proof {
            assert(has_prefix(l@, new_prefix()));
        }
        return true;
    }
    proof {
        assert(!has_prefix(l@, index_prefix()));
        assert(!has_prefix(l@, dashes_prefix()));
        assert(!has_prefix(l@, pluses_prefix()));
        assert(!has_prefix(l@, atat_prefix()));
        assert(!has_prefix(l@, new_prefix()));
    }
    false
}

/// An ASCII decimal digit.
pub open spec fn is_digit(b: u8) -> bool {
    ZERO <= b <= NINE
}

/// The first index at or after `i` that holds no digit, or the line's end.
pub open spec fn digits_end(l: Seq<u8>, i: int) -> int
    decreases l.len() - i,
{
    if i < 0 {
        0
    } else if i >= l.len() {
        i
    } else if is_digit(l[i]) {
        digits_end(l, i + 1)
    } else {
        i
    }
}

proof fn lemma_digits_end(l: Seq<u8>, i: int)
    requires
        0 <= i <= l.len(),
    ensures
        i <= digits_end(l, i) <= l.len(),
        forall|j: int| i <= j < digits_end(l, i) ==> #[trigger] is_digit(l[j]),
        digits_end(l, i) < l.len() ==> !is_digit(l[digits_end(l, i)]),
    decreases l.len() - i,
{
    if i < l.len() && is_digit(l[i]) {
        lemma_digits_end(l, i + 1);
    }
}

/// The value of the decimal digits `l[s..e]`.
pub open spec fn num_val(l: Seq<u8>, s: int, e: int) -> nat
    decreases e - s,
{
    if e <= s {
        0
    } else {
        (num_val(l, s, e - 1) * 10 + (l[e - 1] - ZERO)) as nat
    }
}

proof fn lemma_num_val_mono(l: Seq<u8>, s: int, i: int, e: int)
    requires
        s <= i <= e,
        forall|j: int| s <= j < e ==> #[trigger] is_digit(l[j]),
    ensures
        num_val(l, s, e) >= num_val(l, s, i),
    decreases e - i,
{
    if i < e {
        lemma_num_val_mono(l, s, i, e - 1);
        assert(is_digit(l[e - 1]));
        assert(l[e - 1] - ZERO >= 0);
        assert(num_val(l, s, e - 1) * 10 >= num_val(l, s, e - 1));
        assert(num_val(l, s, e) == (num_val(l, s, e - 1) * 10 + (l[e - 1] - ZERO)) as nat);
    }
}

/// Scans the maximal digit run starting at `from`.
fn scan_digits(l: &Vec<u8>, from: usize) -> (e: usize)
    requires
        from <= l@.len(),
    ensures
        e == digits_end(l@, from as int),
        from <= e <= l@.len(),
{
    let mut e = from;
    while e < l.len() && l[e] >= ZERO && l[e] <= NINE
        invariant
            from <= e <= l@.len(),
            forall|j: int| from <= j < e ==> #[trigger] is_digit(l@[j]),
            digits_end(l@, from as int) == digits_end(l@, e as int),
        decreases l@.len() - e,
    {
        proof {
            assert(digits_end(l@, e as int) == digits_end(l@, e + 1));
        }
        e += 1;
    }
    proof {
        lemma_digits_end(l@, e as int);
    }
    e
}

/// Reads the value of the digit run `l[from..to]`, or reports that it does
/// not fit in a machine word.
fn read_number(l: &Vec<u8>, from: usize, to: usize) -> (r: Option<usize>)
    requires
        from <= to <= l@.len(),
        forall|j: int| from <= j < to ==> #[trigger] is_digit(l@[j]),
    ensures
        match r {
            Some(v) => v as nat == num_val(l@, from as int, to as int),
            None => num_val(l@, from as int, to as int) > usize::MAX,
        },
{
    let mut acc: usize = 0;
    let mut i = from;
    while i < to
        invariant
            from <= i <= to <= l@.len(),
            forall|j: int| from <= j < to ==> #[trigger] is_digit(l@[j]),
            acc as nat == num_val(l@, from as int, i as int),
        decreases to - i,
    {
        proof {
            assert(is_digit(l@[i as int]));
        }
        let d = l[i] - ZERO;
        if acc > usize::MAX / 10 {
            proof {
                assert(acc * 10 > usize::MAX);
                assert(num_val(l@, from as int, i + 1) == acc * 10 + (l@[i as int] - ZERO));
                lemma_num_val_mono(l@, from as int, i + 1, to as int);
            }
            return None;
        }
        let t = acc * 10;
        if d as usize > usize::MAX - t {
            proof {
                assert(num_val(l@, from as int, i + 1) == acc * 10 + (l@[i as int] - ZERO));
                lemma_num_val_mono(l@, from as int, i + 1, to as int);
            }
            return None;
        }
        acc = t + (d as usize);
        i += 1;
    }
    Some(acc)
}

/// End of the first digit run of a hunk header.
pub open spec fn h_e1(l: Seq<u8>) -> int {
    digits_end(l, 4)
}

/// End of the second digit run.
pub open spec fn h_e2(l: Seq<u8>) -> int {
    digits_end(l, h_e1(l) + 1)
}

/// End of the third digit run.
pub open spec fn h_e3(l: Seq<u8>) -> int {
    digits_end(l, h_e2(l) + 2)
}

/// End of the fourth digit run.
pub open spec fn h_e4(l: Seq<u8>) -> int {
    digits_end(l, h_e3(l) + 1)
}

/// The line has the full shape `@@ -<n>,<n> +<n>,<n> @@` of a hunk header,
/// with anything allowed after the closing pair.
pub open spec fn hunk_shape(l: Seq<u8>) -> bool {
    &&& has_prefix(l, hunk_prefix())
    &&& h_e1(l) > 4
    &&& h_e1(l) < l.len() && l[h_e1(l)] == COMMA
    &&& h_e2(l) > h_e1(l) + 1
    &&& h_e2(l) + 1 < l.len() && l[h_e2(l)] == SP && l[h_e2(l) + 1] == PLUS
    &&& h_e3(l) > h_e2(l) + 2
    &&& h_e3(l) < l.len() && l[h_e3(l)] == COMMA
    &&& h_e4(l) > h_e3(l) + 1
    &&& h_e4(l) + 2 < l.len() && l[h_e4(l)] == SP && l[h_e4(l) + 1] == AT && l[h_e4(l) + 2] == AT
}

/// The base-side start number of a hunk header.
pub open spec fn hunk_base_val(l: Seq<u8>) -> nat {
    num_val(l, 4, h_e1(l))
}

/// The head-side start number of a hunk header.
pub open spec fn hunk_head_val(l: Seq<u8>) -> nat {
    num_val(l, h_e2(l) + 2, h_e3(l))
}

/// Parses a line that starts like a hunk header.
pub fn parse_hunk(l: &Vec<u8>) -> (r: Result<(usize, usize), ParseError>)
    ensures
        match r {
            Ok((b, h)) => hunk_shape(l@) && b as nat == hunk_base_val(l@) && h as nat
                == hunk_head_val(l@),
            Err(e) => {
                ||| (e is MalformedHunkHeader && !hunk_shape(l@))
                ||| (e is NumberOverflow && hunk_shape(l@) && (hunk_base_val(l@) > usize::MAX
                    || hunk_head_val(l@) > usize::MAX))
            },
        },
{
    if !(l.len() >= 4 && l[0] == AT && l[1] == AT && l[2] == SP && l[3] == DASH) {
        proof {
            assert(!has_prefix(l@, hunk_prefix()));
        }
        return Err(ParseError::MalformedHunkHeader);
    }
    proof {
        assert(has_prefix(l@, hunk_prefix()));
    }
    let e1 = scan_digits(l, 4);
    if e1 == 4 || e1 >= l.len() || l[e1] != COMMA {
        return Err(ParseError::MalformedHunkHeader);
    }
    let e2 = scan_digits(l, e1 + 1);
    if e2 == e1 + 1 || e2 >= l.len() - 1 || l[e2] != SP || l[e2 + 1] != PLUS {
        return Err(ParseError::MalformedHunkHeader);
    }
    let e3 = scan_digits(l, e2 + 2);
    if e3 == e2 + 2 || e3 >= l.len() || l[e3] != COMMA {
        return Err(ParseError::MalformedHunkHeader);
    }
    let e4 = scan_digits(l, e3 + 1);
    if e4 == e3 + 1 || e4 >= l.len() - 2 || l[e4] != SP || l[e4 + 1] != AT || l[e4 + 2] != AT {
        return Err(ParseError::MalformedHunkHeader);
    }
    proof {
        assert(hunk_shape(l@));
        lemma_digits_end(l@, 4);
        lemma_digits_end(l@, e2 + 2);
    }
    let b = read_number(l, 4, e1);
    let h = read_number(l, e2 + 2, e3);
    match (b, h) {
        (Some(b), Some(h)) => Ok((b, h)),
        _ => Err(ParseError::NumberOverflow),
    }
}

/// The parser's state between lines: finished entries, the open file's path,
/// the records gathered for it so far, and the two side counters.
pub ghost struct PState {
    pub entries: Seq<EntryModel>,
    pub cur: Option<Seq<u8>>,
    pub base: Seq<RecModel>,
    pub head: Seq<RecModel>,
    pub bn: nat,
    pub hn: nat,
}

/// The state before any line: no file open, both counters at 1.
pub open spec fn init_state() -> PState {
    PState {
        entries: Seq::empty(),
        cur: None,
        base: Seq::empty(),
        head: Seq::empty(),
        bn: 1,
        hn: 1,
    }
}

/// Inserts an entry, replacing the one with the same path if present.
pub open spec fn upsert(es: Seq<EntryModel>, e: EntryModel) -> Seq<EntryModel> {
    if exists|i: int| 0 <= i < es.len() && es[i].path == e.path {
        es.update(choose|i: int| 0 <= i < es.len() && es[i].path == e.path, e)
    } else {
        es.push(e)
    }
}

/// Closes the open file, if any: an entry with at least one record joins the
/// finished entries; one with none is dropped.
pub open spec fn flush(st: PState) -> Seq<EntryModel> {
    match st.cur {
        Some(path) => if st.base.len() + st.head.len() > 0 {
            upsert(st.entries, EntryModel { path, base: st.base, head: st.head })
        } else {
            st.entries
        },
        None => st.entries,
    }
}

/// One line's effect on the parser state. The line is stripped of ANSI
/// colour sequences first; then, in order: a file header closes the open
/// file and opens a new one with both counters at 1; a line opening like a
/// hunk header must parse fully, must not step back over recorded lines,
/// and resets the counters; metadata is skipped; a removed line is recorded
/// on the base side, an added line on the head side, any other non-empty
/// line on both; an empty line is skipped.
pub open spec fn step(st: PState, raw: Seq<u8>) -> Result<PState, ParseError> {
    let l = strip_ansi(raw);
    if is_file_header(l) {
        Ok(
            PState {
                entries: flush(st),
                cur: Some(fh_path(l)),
                base: Seq::empty(),
                head: Seq::empty(),
                bn: 1,
                hn: 1,
            },
        )
    } else if has_prefix(l, hunk_prefix()) {
        if !hunk_shape(l) {
            Err(ParseError::MalformedHunkHeader)
        } else if hunk_base_val(l) > usize::MAX || hunk_head_val(l) > usize::MAX {
            Err(ParseError::NumberOverflow)
        } else if (st.base.len() > 0 && hunk_base_val(l) <= st.base.last().line_number) || (
        st.head.len() > 0 && hunk_head_val(l) <= st.head.last().line_number) {
            Err(ParseError::HunkOutOfOrder)
        } else {
            Ok(PState { bn: hunk_base_val(l), hn: hunk_head_val(l), ..st })
        }
    } else if is_meta(l) {
        Ok(st)
    } else if l.len() > 0 && l[0] == DASH {
        if st.bn >= usize::MAX {
            Err(ParseError::NumberOverflow)
        } else {
            Ok(
                PState {
                    base: st.base.push(
                        RecModel { line_number: st.bn, text: l, kind: LineKind::Removed },
                    ),
                    bn: st.bn + 1,
                    ..st
                },
            )
        }
    } else if l.len() > 0 && l[0] == PLUS {
        if st.hn >= usize::MAX {
            Err(ParseError::NumberOverflow)
        } else {
            Ok(
                PState {
                    head: st.head.push(
                        RecModel { line_number: st.hn, text: l, kind: LineKind::Added },
                    ),
                    hn: st.hn + 1,
                    ..st
                },
            )
        }
    } else if l.len() > 0 {
        if st.bn >= usize::MAX || st.hn >= usize::MAX {
            Err(ParseError::NumberOverflow)
        } else {
            Ok(
                PState {
                    base: st.base.push(
                        RecModel { line_number: st.bn, text: l, kind: LineKind::Context },
                    ),
                    head: st.head.push(
                        RecModel { line_number: st.hn, text: l, kind: LineKind::Context },
                    ),
                    bn: st.bn + 1,
                    hn: st.hn + 1,
                    ..st
                },
            )
        }
    } else {
        Ok(st)
    }
}

/// The parser state after the first `n` lines.
pub open spec fn run_prefix(lines: Seq<Seq<u8>>, n: int) -> Result<PState, ParseError>
    decreases n,
{
    if n <= 0 {
        Ok(init_state())
    } else {
        match run_prefix(lines, n - 1) {
            Ok(st) => step(st, lines[n - 1]),
            Err(e) => Err(e),
        }
    }
}

/// What parsing a whole diff text yields: the entries after every line has
/// been folded in and the last open file has been closed, or the error of
/// the first offending line.
pub open spec fn spec_parse(input: Seq<u8>) -> Result<Seq<EntryModel>, ParseError> {
    let lines = spec_lines(input);
    match run_prefix(lines, lines.len() as int) {
        Ok(st) => Ok(flush(st)),
        Err(e) => Err(e),
    }
}

/// The parser state's invariant: finished entries well formed, gathered
/// records strictly ordered and side-shaped, counters in machine range and
/// above every recorded number.
pub open spec fn st_wf(st: PState) -> bool {
    &&& fcs_wf(st.entries)
    &&& recs_increasing(st.base)
    &&& recs_increasing(st.head)
    &&& forall|i: int| 0 <= i < st.base.len() ==> base_rec_wf(#[trigger] st.base[i])
    &&& forall|i: int| 0 <= i < st.head.len() ==> head_rec_wf(#[trigger] st.head[i])
    &&& st.bn <= usize::MAX
    &&& st.hn <= usize::MAX
    &&& st.base.len() > 0 ==> st.base.last().line_number < st.bn
    &&& st.head.len() > 0 ==> st.head.last().line_number < st.hn
}

proof fn lemma_upsert_wf(es: Seq<EntryModel>, e: EntryModel)
    requires
        fcs_wf(es),
        entry_wf(e),
    ensures
        fcs_wf(upsert(es, e)),
{
    if exists|i: int| 0 <= i < es.len() && es[i].path == e.path {
        let k = choose|i: int| 0 <= i < es.len() && es[i].path == e.path;
        let r = es.update(k, e);
        assert forall|i: int, j: int| 0 <= i < j < r.len() implies r[i].path != r[j].path by {
            if i != k && j != k {
                assert(r[i] == es[i] && r[j] == es[j]);
            } else if i == k {
                assert(r[j] == es[j]);
                assert(es[k].path == e.path);
            } else {
                assert(r[i] == es[i]);
                assert(es[k].path == e.path);
            }
        }
    } else {
        let r = es.push(e);
        assert forall|i: int, j: int| 0 <= i < j < r.len() implies r[i].path != r[j].path by {
            if j == es.len() {
                assert(r[i] == es[i]);
                assert(!(0 <= i < es.len() && es[i].path == e.path));
            } else {
                assert(r[i] == es[i] && r[j] == es[j]);
            }
        }
    }
}

proof fn lemma_flush_wf(st: PState)
    requires
        st_wf(st),
    ensures
        fcs_wf(flush(st)),
{
    match st.cur {
        Some(path) => {
            if st.base.len() + st.head.len() > 0 {
                let e = EntryModel { path, base: st.base, head: st.head };
                assert(entry_wf(e));
                lemma_upsert_wf(st.entries, e);
            }
        },
        None => {},
    }
}

/// A state satisfying the invariant steps to a state satisfying it.
proof fn lemma_step_wf(st: PState, raw: Seq<u8>)
    requires
        st_wf(st),
        step(st, raw) is Ok,
    ensures
        st_wf(step(st, raw)->Ok_0),
{
    let l = strip_ansi(raw);
    if is_file_header(l) {
        lemma_flush_wf(st);
    } else if has_prefix(l, hunk_prefix()) {
    } else if is_meta(l) {
    } else if l.len() > 0 && l[0] == DASH {
        let r = RecModel { line_number: st.bn, text: l, kind: LineKind::Removed };
        let nb = st.base.push(r);
        assert forall|i: int, j: int| 0 <= i < j < nb.len() implies nb[i].line_number
            < nb[j].line_number by {
            if j == st.base.len() {
                if i < st.base.len() - 1 {
                    assert(st.base[i].line_number < st.base[st.base.len() - 1].line_number);
                }
            }
        }
    } else if l.len() > 0 && l[0] == PLUS {
        let r = RecModel { line_number: st.hn, text: l, kind: LineKind::Added };
        let nh = st.head.push(r);
        assert forall|i: int, j: int| 0 <= i < j < nh.len() implies nh[i].line_number
            < nh[j].line_number by {
            if j == st.head.len() {
                if i < st.head.len() - 1 {
                    assert(st.head[i].line_number < st.head[st.head.len() - 1].line_number);
                }
            }
        }
    } else if l.len() > 0 {
        let rb = RecModel { line_number: st.bn, text: l, kind: LineKind::Context };
        let nb = st.base.push(rb);
        assert forall|i: int, j: int| 0 <= i < j < nb.len() implies nb[i].line_number
            < nb[j].line_number by {
            if j == st.base.len() {
                if i < st.base.len() - 1 {
                    assert(st.base[i].line_number < st.base[st.base.len() - 1].line_number);
                }
            }
        }
        let rh = RecModel { line_number: st.hn, text: l, kind: LineKind::Context };
        let nh = st.head.push(rh);
        assert forall|i: int, j: int| 0 <= i < j < nh.len() implies nh[i].line_number
            < nh[j].line_number by {
            if j == st.head.len() {
                if i < st.head.len() - 1 {
                    assert(st.head[i].line_number < st.head[st.head.len() - 1].line_number);
                }
            }
        }
    }
}

/// An error reached after `m` lines stands after any further lines.
proof fn lemma_run_err_propagates(lines: Seq<Seq<u8>>, m: int, n: int)
    requires
        0 <= m <= n,
        run_prefix(lines, m) is Err,
    ensures
        run_prefix(lines, n) == run_prefix(lines, m),
    decreases n - m,
{
    if n > m {
        lemma_run_err_propagates(lines, m, n - 1);
    }
}

/// Ghost image of the executable parser state.
pub open spec fn opt_view(p: Option<Vec<u8>>) -> Option<Seq<u8>> {
    match p {
        Some(v) => Some(v@),
        None => None,
    }
}

/// Inserts a finished entry, replacing the entry with the same path when one
/// exists.
fn upsert_entry(out: &mut Vec<FileEntry>, e: FileEntry)
    requires
        forall|i: int, j: int|
            0 <= i < j < old(out)@.len() ==> old(out).deep_view()[i].path != old(
                out,
            ).deep_view()[j].path,
    ensures
        final(out).deep_view() == upsert(old(out).deep_view(), e@),
{
    let ghost es = old(out).deep_view();
    let mut i: usize = 0;
    while i < out.len()
        invariant
            0 <= i <= out@.len(),
            es == old(out).deep_view(),
            out.deep_view() == es,
            forall|k: int| 0 <= k < i ==> es[k].path != e@.path,
            forall|k1: int, k2: int| 0 <= k1 < k2 < es.len() ==> es[k1].path != es[k2].path,
        decreases out@.len() - i,
    {
        if crate::text::bytes_eq(&out[i].path, &e.path) {
            proof {
                assert(es[i as int].path == e@.path);
            }
            let ghost ev = e@;
            out.set(i, e);
            proof {
                assert(out.deep_view() =~= es.update(i as int, ev));
                assert(exists|k: int| 0 <= k < es.len() && es[k].path == ev.path);
                // the found slot is the only one carrying this path
                let k = choose|k: int| 0 <= k < es.len() && es[k].path == ev.path;
                if k != i as int {
                    assert(es[k].path == es[i as int].path);
                    assert(false);
                }
                assert(upsert(es, ev) == es.update(i as int, ev));
            }
            return ;
        }
        i += 1;
    }
    proof {
        assert forall|k: int| 0 <= k < es.len() implies es[k].path != e@.path by {}
    }
    let ghost ev = e@;
    out.push(e);
    proof {
        assert(out.deep_view() =~= es.push(ev));
    }
}

/// Parses a unified-diff text into a change set. Returns the error of the
/// first offending line, or the change set, whose entries keep the order in
/// which their file headers first appeared.
pub fn parse_diff_output(input: &Vec<u8>) -> (r: Result<FileChangeSet, ParseError>)
    ensures
        match r {
            Ok(fcs) => spec_parse(input@) == Ok::<Seq<EntryModel>, ParseError>(fcs@) && fcs.wf(),
            Err(e) => spec_parse(input@) == Err::<Seq<EntryModel>, ParseError>(e),
        },
{
    let lines = split_lines(input);
    let ghost linesm = spec_lines(input@);
    let mut out: Vec<FileEntry> = Vec::new();
    let mut cur_path: Option<Vec<u8>> = None;
    let mut base: Vec<LineRecord> = Vec::new();
    let mut head: Vec<LineRecord> = Vec::new();
    let mut bn: usize = 1;
    let mut hn: usize = 1;
    let mut i: usize = 0;
    proof {
        assert(out.deep_view() =~= Seq::<EntryModel>::empty());
        assert(base.deep_view() =~= Seq::<RecModel>::empty());
        assert(head.deep_view() =~= Seq::<RecModel>::empty());
        assert(run_prefix(linesm, 0) == Ok::<PState, ParseError>(init_state()));
        assert(PState {
            entries: out.deep_view(),
            cur: opt_view(cur_path),
            base: base.deep_view(),
            head: head.deep_view(),
            bn: bn as nat,
            hn: hn as nat,
        } == init_state());
    }
    while i < lines.len()
        invariant
            0 <= i <= lines@.len(),
            lines.deep_view() == linesm,
            linesm == spec_lines(input@),
            run_prefix(linesm, i as int) == Ok::<PState, ParseError>(
                PState {
                    entries: out.deep_view(),
                    cur: opt_view(cur_path),
                    base: base.deep_view(),
                    head: head.deep_view(),
                    bn: bn as nat,
                    hn: hn as nat,
                },
            ),
            st_wf(
                PState {
                    entries: out.deep_view(),
                    cur: opt_view(cur_path),
                    base: base.deep_view(),
                    head: head.deep_view(),
                    bn: bn as nat,
                    hn: hn as nat,
                },
            ),
        decreases lines@.len() - i,
    {
        let ghost st0 = PState {
            entries: out.deep_view(),
            cur: opt_view(cur_path),
            base: base.deep_view(),
            head: head.deep_view(),
            bn: bn as nat,
            hn: hn as nat,
        };
        let raw = &lines[i];
        proof {
            assert(raw@ == linesm[i as int]);
        }
        let l = strip_ansi_bytes(raw);
        let ghost lm = strip_ansi(raw@);
        if let Some(path) = parse_file_header(&l) {
            match cur_path {
                Some(prev) => {
                    if base.len() > 0 || head.len() > 0 {
                        let entry = FileEntry { path: prev, base, head };
                        proof {
                            assert(entry@ == EntryModel {
                                path: st0.cur->0,
                                base: st0.base,
                                head: st0.head,
                            });
                        }
                        upsert_entry(&mut out, entry);
                    }
                },
                None => {},
            }
            proof {
                assert(out.deep_view() == flush(st0));
            }
            cur_path = Some(path);
            base = Vec::new();
            head = Vec::new();
            bn = 1;
            hn = 1;
            proof {
                assert(base.deep_view() =~= Seq::<RecModel>::empty());
                assert(head.deep_view() =~= Seq::<RecModel>::empty());
                lemma_step_wf(st0, raw@);
                assert(step(st0, raw@) == Ok::<PState, ParseError>(
                    PState {
                        entries: out.deep_view(),
                        cur: opt_view(cur_path),
                        base: base.deep_view(),
                        head: head.deep_view(),
                        bn: bn as nat,
                        hn: hn as nat,
                    },
                ));
            }
        } else if l.len() >= 4 && l[0] == AT && l[1] == AT && l[2] == SP && l[3] == DASH {
            proof {
                assert(has_prefix(lm, hunk_prefix()));
            }
            match parse_hunk(&l) {
                Ok((b, h)) => {
                    let bad_base = base.len() > 0 && {
                        let lastr = &base[base.len() - 1];
                        b <= lastr.line_number
                    };
                    let bad_head = head.len() > 0 && {
                        let lastr = &head[head.len() - 1];
                        h <= lastr.line_number
                    };
                    if bad_base || bad_head {
                        proof {
                            assert(step(st0, raw@) == Err::<PState, ParseError>(
                                ParseError::HunkOutOfOrder,
                            ));
                            lemma_run_err_propagates(linesm, i + 1, linesm.len() as int);
                        }
                        return Err(ParseError::HunkOutOfOrder);
                    }
                    bn = b;
                    hn = h;
                    proof {
                        lemma_step_wf(st0, raw@);
                        assert(step(st0, raw@) == Ok::<PState, ParseError>(
                            PState {
                                entries: out.deep_view(),
                                cur: opt_view(cur_path),
                                base: base.deep_view(),
                                head: head.deep_view(),
                                bn: bn as nat,
                                hn: hn as nat,
                            },
                        ));
                    }
                },
                Err(e) => {
                    proof {
                        assert(step(st0, raw@) == Err::<PState, ParseError>(e));
                        lemma_run_err_propagates(linesm, i + 1, linesm.len() as int);
                    }
                    return Err(e);
                },
            }
        } else if is_meta_line(&l) {
            proof {
                assert(step(st0, raw@) == Ok::<PState, ParseError>(st0));
            }
        } else if l.len() > 0 && l[0] == DASH {
            if bn == usize::MAX {
                proof {
                    assert(step(st0, raw@) == Err::<PState, ParseError>(
                        ParseError::NumberOverflow,
                    ));
                    lemma_run_err_propagates(linesm, i + 1, linesm.len() as int);
                }
                return Err(ParseError::NumberOverflow);
            }
            let ghost prev = base.deep_view();
            base.push(LineRecord { line_number: bn, text: l, kind: LineKind::Removed });
            bn = bn + 1;
            proof {
                assert(base.deep_view() =~= prev.push(
                    RecModel { line_number: st0.bn, text: lm, kind: LineKind::Removed },
                ));
                lemma_step_wf(st0, raw@);
                assert(step(st0, raw@) == Ok::<PState, ParseError>(
                    PState {
                        entries: out.deep_view(),
                        cur: opt_view(cur_path),
                        base: base.deep_view(),
                        head: head.deep_view(),
                        bn: bn as nat,
                        hn: hn as nat,
                    },
                ));
            }
        } else if l.len() > 0 && l[0] == PLUS {
            if hn == usize::MAX {
                proof {
                    assert(step(st0, raw@) == Err::<PState, ParseError>(
                        ParseError::NumberOverflow,
                    ));
                    lemma_run_err_propagates(linesm, i + 1, linesm.len() as int);
                }
                return Err(ParseError::NumberOverflow);
            }
            let ghost prev = head.deep_view();
            head.push(LineRecord { line_number: hn, text: l, kind: LineKind::Added });
            hn = hn + 1;
            proof {
                assert(head.deep_view() =~= prev.push(
                    RecModel { line_number: st0.hn, text: lm, kind: LineKind::Added },
                ));
                lemma_step_wf(st0, raw@);
                assert(step(st0, raw@) == Ok::<PState, ParseError>(
                    PState {
                        entries: out.deep_view(),
                        cur: opt_view(cur_path),
                        base: base.deep_view(),
                        head: head.deep_view(),
                        bn: bn as nat,
                        hn: hn as nat,
                    },
                ));
            }
        } else if l.len() > 0 {
            if bn == usize::MAX || hn == usize::MAX {
                proof {
                    assert(step(st0, raw@) == Err::<PState, ParseError>(
                        ParseError::NumberOverflow,
                    ));
                    lemma_run_err_propagates(linesm, i + 1, linesm.len() as int);
                }
                return Err(ParseError::NumberOverflow);
            }
            let ghost prev_b = base.deep_view();
            let ghost prev_h = head.deep_view();
            let l2 = crate::text::copy_bytes(&l);
            base.push(LineRecord { line_number: bn, text: l, kind: LineKind::Context });
            head.push(LineRecord { line_number: hn, text: l2, kind: LineKind::Context });
            bn = bn + 1;
            hn = hn + 1;
            proof {
                assert(base.deep_view() =~= prev_b.push(
                    RecModel { line_number: st0.bn, text: lm, kind: LineKind::Context },
                ));
                assert(head.deep_view() =~= prev_h.push(
                    RecModel { line_number: st0.hn, text: lm, kind: LineKind::Context },
                ));
                lemma_step_wf(st0, raw@);
                assert(step(st0, raw@) == Ok::<PState, ParseError>(
                    PState {
                        entries: out.deep_view(),
                        cur: opt_view(cur_path),
                        base: base.deep_view(),
                        head: head.deep_view(),
                        bn: bn as nat,
                        hn: hn as nat,
                    },
                ));
            }
        } else {
            proof {
                assert(step(st0, raw@) == Ok::<PState, ParseError>(st0));
            }
        }
        i += 1;
    }
    // close the last open file
    let ghost st_end = PState {
        entries: out.deep_view(),
        cur: opt_view(cur_path),
        base: base.deep_view(),
        head: head.deep_view(),
        bn: bn as nat,
        hn: hn as nat,
    };
    match cur_path {
        Some(prev) => {
            if base.len() > 0 || head.len() > 0 {
                let entry = FileEntry { path: prev, base, head };
                upsert_entry(&mut out, entry);
            }
        },
        None => {},
    }
    proof {
        assert(out.deep_view() == flush(st_end));
        lemma_flush_wf(st_end);
    }
    let fcs = FileChangeSet { entries: out };
    Ok(fcs)
}

/// A line that records nothing one-sided: it is a header, metadata or
/// context, and any hunk header in it resets both counters to one number.
pub open spec fn two_sided_line(raw: Seq<u8>) -> bool {
    let l = strip_ansi(raw);
    if is_file_header(l) {
        true
    } else if has_prefix(l, hunk_prefix()) {
        hunk_shape(l) ==> hunk_base_val(l) == hunk_head_val(l)
    } else if is_meta(l) {
        true
    } else {
        !(l.len() > 0 && l[0] == DASH) && !(l.len() > 0 && l[0] == PLUS)
    }
}

/// Both sides of the parser state agree, and so do both sides of every
/// finished entry.
pub open spec fn st_balanced(st: PState) -> bool {
    &&& st.base == st.head
    &&& st.bn == st.hn
    &&& forall|i: int| 0 <= i < st.entries.len() ==> #[trigger] st.entries[i].base
        == st.entries[i].head
}

proof fn lemma_flush_balanced(st: PState)
    requires
        st_balanced(st),
    ensures
        forall|i: int| 0 <= i < flush(st).len() ==> #[trigger] flush(st)[i].base
            == flush(st)[i].head,
{
    match st.cur {
        Some(path) => {
            if st.base.len() + st.head.len() > 0 {
                let e = EntryModel { path, base: st.base, head: st.head };
                let r = upsert(st.entries, e);
                if exists|i: int| 0 <= i < st.entries.len() && st.entries[i].path == e.path {
                    let k = choose|i: int|
                        0 <= i < st.entries.len() && st.entries[i].path == e.path;
                    assert forall|i: int| 0 <= i < r.len() implies #[trigger] r[i].base
                        == r[i].head by {
                        if i != k {
                            assert(r[i] == st.entries[i]);
                        }
                    }
                } else {
                    assert forall|i: int| 0 <= i < r.len() implies #[trigger] r[i].base
                        == r[i].head by {
                        if i < st.entries.len() {
                            assert(r[i] == st.entries[i]);
                        }
                    }
                }
            }
        },
        None => {},
    }
}

proof fn lemma_step_balanced(st: PState, raw: Seq<u8>)
    requires
        st_balanced(st),
        two_sided_line(raw),
        step(st, raw) is Ok,
    ensures
        st_balanced(step(st, raw)->Ok_0),
{
    let l = strip_ansi(raw);
    if is_file_header(l) {
        lemma_flush_balanced(st);
    }
}

proof fn lemma_run_balanced(lines: Seq<Seq<u8>>, n: int)
    requires
        0 <= n <= lines.len(),
        forall|k: int| 0 <= k < lines.len() ==> two_sided_line(#[trigger] lines[k]),
        run_prefix(lines, n) is Ok,
    ensures
        st_balanced(run_prefix(lines, n)->Ok_0),
    decreases n,
{
    if n == 0 {
    } else {
        lemma_run_balanced(lines, n - 1);
        lemma_step_balanced(run_prefix(lines, n - 1)->Ok_0, lines[n - 1]);
    }
}

/// Round trip of a two-sided diff: when no line records one-sidedly (no
/// removed lines, no added lines, every hunk header starting both sides at
/// one number), each parsed file holds identical base and head sequences, in
/// text, kind, and line numbering alike.
pub proof fn lemma_context_only_round_trip(input: Seq<u8>)
    requires
        forall|k: int| 0 <= k < spec_lines(input).len() ==> two_sided_line(
            #[trigger] spec_lines(input)[k],
        ),
        spec_parse(input) is Ok,
    ensures
        forall|i: int| 0 <= i < spec_parse(input)->Ok_0.len() ==> #[trigger] spec_parse(
            input,
        )->Ok_0[i].base == spec_parse(input)->Ok_0[i].head,
{
    let lines = spec_lines(input);
    lemma_run_balanced(lines, lines.len() as int);
    lemma_flush_balanced(run_prefix(lines, lines.len() as int)->Ok_0);
}

} // verus!
