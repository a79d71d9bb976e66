//! Byte-level text utilities: line splitting and joining, ANSI escape
//! stripping, whitespace trimming, decimal formatting, substring search and
//! lexicographic comparison. All text in this crate is modelled as bytes.
use vstd::prelude::*;

verus! {

/// Line feed.
pub const NL: u8 = 10;
/// Carriage return.
pub const CR: u8 = 13;
/// Escape byte that opens an ANSI colour sequence.
pub const ESC: u8 = 27;
pub const SP: u8 = 32;
pub const PLUS: u8 = 43;
pub const COMMA: u8 = 44;
pub const DASH: u8 = 45;
pub const COLON: u8 = 58;
pub const AT: u8 = 64;
pub const LBRACK: u8 = 91;
/// The byte `m`, which closes an ANSI colour sequence.
pub const LOW_M: u8 = 109;
pub const ZERO: u8 = 48;
pub const NINE: u8 = 57;

/// `p` is a prefix of `s`.
pub open spec fn has_prefix(s: Seq<u8>, p: Seq<u8>) -> bool {
    p.len() <= s.len() && (forall|i: int| 0 <= i < p.len() ==> s[i] == p[i])
}

/// Runtime prefix test.
pub fn bytes_have_prefix(s: &Vec<u8>, p: &Vec<u8>) -> (r: bool)
    ensures
        r == has_prefix(s@, p@),
{
    if p.len() > s.len() {
        return false;
    }
    let mut i: usize = 0;
    while i < p.len()
        invariant
            i <= p.len() <= s.len(),
            forall|j: int| 0 <= j < i ==> s@[j] == p@[j],
        decreases p.len() - i,
    {
        if s[i] != p[i] {
            return false;
        }
        i += 1;
    }
    true
}

/// Runtime equality of two byte vectors.
pub fn bytes_eq(a: &Vec<u8>, b: &Vec<u8>) -> (r: bool)
    ensures
        r == (a@ == b@),
{
    if a.len() != b.len() {
        proof {
            assert(a@ != b@);
        }
        return false;
    }
    let mut i: usize = 0;
    while i < a.len()
        invariant
            i <= a.len() == b.len(),
            forall|j: int| 0 <= j < i ==> a@[j] == b@[j],
        decreases a.len() - i,
    {
        if a[i] != b[i] {
            return false;
        }
        i += 1;
    }
    proof {
        assert(a@ =~= b@);
    }
    true
}

/// Copies a byte vector.
pub fn copy_bytes(v: &Vec<u8>) -> (r: Vec<u8>)
    ensures
        r@ == v@,
{
    let mut r: Vec<u8> = Vec::new();
    let mut i: usize = 0;
    while i < v.len()
        invariant
            i <= v.len(),
            r@ == v@.take(i as int),
        decreases v.len() - i,
    {
        r.push(v[i]);
        proof {
            assert(r@ =~= v@.take(i + 1 as int));
        }
        i += 1;
    }
    proof {
        assert(v@.take(v@.len() as int) =~= v@);
    }
    r
}

/// Appends the bytes of `src` to `dst`.
pub fn append_bytes(dst: &mut Vec<u8>, src: &Vec<u8>)
    ensures
        final(dst)@ == old(dst)@ + src@,
{
    let mut i: usize = 0;
    while i < src.len()
        invariant
            i <= src.len(),
            dst@ == old(dst)@ + src@.take(i as int),
        decreases src.len() - i,
    {
        dst.push(src[i]);
        proof {
            assert(old(dst)@ + src@.take(i + 1 as int) =~= (old(dst)@ + src@.take(i as int)).push(
                src@[i as int],
            ));
        }
        i += 1;
    }
    proof {
        assert(src@.take(src@.len() as int) =~= src@);
    }
}

/// Index of the first occurrence of `b` in `s`, or `s.len()` if absent.
pub open spec fn find_byte(s: Seq<u8>, b: u8) -> int
    decreases s.len(),
{
    if s.len() == 0 {
        0
    } else if s[0] == b {
        0
    } else {
        1 + find_byte(s.skip(1), b)
    }
}

pub proof fn lemma_find_byte(s: Seq<u8>, b: u8)
    ensures
        0 <= find_byte(s, b) <= s.len(),
        forall|j: int| 0 <= j < find_byte(s, b) ==> s[j] != b,
        find_byte(s, b) < s.len() ==> s[find_byte(s, b)] == b,
    decreases s.len(),
{
    if s.len() == 0 {
    } else if s[0] == b {
    } else {
        lemma_find_byte(s.skip(1), b);
        assert forall|j: int| 0 <= j < find_byte(s, b) implies s[j] != b by {
            if j > 0 {
                assert(s.skip(1)[j - 1] == s[j]);
            }
        }
        if find_byte(s, b) < s.len() {
            assert(s.skip(1)[find_byte(s, b) - 1] == s[find_byte(s, b)]);
        }
    }
}

/// The first occurrence is exactly `k` when nothing earlier matches.
pub proof fn lemma_find_byte_is(s: Seq<u8>, b: u8, k: int)
    requires
        0 <= k <= s.len(),
        forall|j: int| 0 <= j < k ==> s[j] != b,
        k < s.len() ==> s[k] == b,
    ensures
        find_byte(s, b) == k,
    decreases s.len(),
{
    if s.len() == 0 {
    } else if s[0] == b {
        assert(k == 0);
    } else {
        assert(k >= 1);
        assert forall|j: int| 0 <= j < k - 1 implies s.skip(1)[j] != b by {
            assert(s.skip(1)[j] == s[j + 1]);
        }
        if k - 1 < s.skip(1).len() {
            assert(s.skip(1)[k - 1] == s[k]);
        }
        lemma_find_byte_is(s.skip(1), b, k - 1);
    }
}

/// Removes one trailing carriage return, as the line splitter does before a
/// line feed.
pub open spec fn chop_cr(l: Seq<u8>) -> Seq<u8> {
    if l.len() > 0 && l[l.len() - 1] == CR {
        l.drop_last()
    } else {
        l
    }
}

/// The lines of `s`: split at line feeds, dropping one carriage return before
/// each line feed; a final line feed does not open an empty last line.
pub open spec fn spec_lines(s: Seq<u8>) -> Seq<Seq<u8>>
    decreases s.len() via spec_lines_decreases
{
    if s.len() == 0 {
        Seq::empty()
    } else {
        let i = find_byte(s, NL);
        if i == s.len() {
            seq![s]
        } else {
            seq![chop_cr(s.take(i))] + spec_lines(s.skip(i + 1))
        }
    }
}

#[via_fn]
proof fn spec_lines_decreases(s: Seq<u8>) {
    lemma_find_byte(s, NL);
}

/// Splits a byte text into its lines.
pub fn split_lines(s: &Vec<u8>) -> (r: Vec<Vec<u8>>)
    ensures
        r.deep_view() == spec_lines(s@),
{
    let ghost full = s@;
    let mut out: Vec<Vec<u8>> = Vec::new();
    let mut cur: Vec<u8> = Vec::new();
    let mut i: usize = 0;
    let ghost mut line_start: int = 0;
    proof {
        assert(full.skip(0) =~= full);
        assert(out.deep_view() =~~= Seq::<Seq<u8>>::empty());
        assert(Seq::<Seq<u8>>::empty() + spec_lines(full) =~~= spec_lines(full));
    }
    while i < s.len()
        invariant
            0 <= line_start <= i <= s.len(),
            full == s@,
            cur@ == full.subrange(line_start, i as int),
            forall|j: int| line_start <= j < i ==> full[j] != NL,
            spec_lines(full) == out.deep_view() + spec_lines(full.skip(line_start)),
        decreases s.len() - i,
    {
        let c = s[i];
        if c == NL {
            proof {
                let rest = full.skip(line_start);
                assert forall|j: int| 0 <= j < i - line_start implies rest[j] != NL by {
                    assert(rest[j] == full[line_start + j]);
                }
                assert(rest[i - line_start] == full[i as int]);
                lemma_find_byte_is(rest, NL, i - line_start);
                assert(rest.take(i - line_start) =~= full.subrange(line_start, i as int));
                assert(rest.skip(i - line_start + 1) =~= full.skip(i + 1));
                assert(spec_lines(rest) == seq![chop_cr(cur@)] + spec_lines(full.skip(i + 1)));
            }
            // drop one trailing carriage return before the line feed
            if cur.len() > 0 && cur[cur.len() - 1] == CR {
                cur.pop();
            }
            proof {
                assert(cur@ =~= chop_cr(full.subrange(line_start, i as int)));
            }
            let ghost chopped = cur@;
            let ghost prev_out = out.deep_view();
            out.push(cur);
            proof {
                assert(out.deep_view() =~~= prev_out.push(chopped));
                assert(prev_out.push(chopped) + spec_lines(full.skip(i + 1)) =~~= prev_out + (seq![
                    chopped,
                ] + spec_lines(full.skip(i + 1))));
            }
            cur = Vec::new();
            proof {
                line_start = i + 1;
                assert(cur@ =~= full.subrange(line_start, i + 1));
            }
        } else {
            cur.push(c);
            proof {
                assert(cur@ =~= full.subrange(line_start, i + 1));
            }
        }
        i += 1;
    }
    if cur.len() > 0 {
        proof {
            let rest = full.skip(line_start);
            assert forall|j: int| 0 <= j < rest.len() implies rest[j] != NL by {
                assert(rest[j] == full[line_start + j]);
            }
            lemma_find_byte_is(rest, NL, rest.len() as int);
            assert(rest =~= cur@);
            assert(spec_lines(rest) == seq![cur@]);
        }
        let ghost last_line = cur@;
        let ghost prev_out = out.deep_view();
        out.push(cur);
        proof {
            assert(out.deep_view() =~~= prev_out.push(last_line));
            assert(prev_out.push(last_line) =~~= prev_out + seq![last_line]);
        }
    } else {
        proof {
            assert(full.skip(line_start) =~= Seq::<u8>::empty());
        }
    }
    proof {
        assert(out.deep_view() =~~= spec_lines(full));
    }
    out
}

/// Joins lines with a line feed between each pair, with no trailing line
/// feed.
pub open spec fn spec_join(ls: Seq<Seq<u8>>) -> Seq<u8>
    decreases ls.len(),
{
    if ls.len() == 0 {
        Seq::empty()
    } else if ls.len() == 1 {
        ls[0]
    } else {
        spec_join(ls.drop_last()) + seq![NL] + ls.last()
    }
}

/// Runtime join of lines with line feeds.
pub fn join_lines(ls: &Vec<Vec<u8>>) -> (r: Vec<u8>)
    ensures
        r@ == spec_join(ls.deep_view()),
{
    let ghost model = ls.deep_view();
    let mut out: Vec<u8> = Vec::new();
    let mut i: usize = 0;
    while i < ls.len()
        invariant
            i <= ls.len(),
            model == ls.deep_view(),
            model.len() == ls@.len(),
            forall|j: int| 0 <= j < model.len() ==> model[j] == ls@[j]@,
            out@ == spec_join(model.take(i as int)),
        decreases ls.len() - i,
    {
        if i > 0 {
            out.push(NL);
        }
        let line = &ls[i];
        append_bytes(&mut out, line);
        proof {
            let t1 = model.take(i + 1);
            assert(t1.drop_last() =~= model.take(i as int));
            assert(t1.last() == model[i as int]);
            if i == 0 {
                assert(spec_join(t1) == model[0]);
                assert(out@ == model[0]);
            } else {
                assert(spec_join(t1) == spec_join(model.take(i as int)) + seq![NL]
                    + model[i as int]);
                assert(out@ =~= spec_join(model.take(i as int)) + seq![NL] + model[i as int]);
            }
        }
        i += 1;
    }
    proof {
        assert(model.take(model.len() as int) =~= model);
    }
    out
}

/// `s` with every ANSI colour sequence removed: a sequence is an escape byte,
/// an opening bracket, any bytes, and the first following `m`. An escape
/// without a closing `m` is kept as it stands.
pub open spec fn strip_ansi(s: Seq<u8>) -> Seq<u8>
    decreases s.len() via strip_ansi_decreases
{
    if s.len() == 0 {
        Seq::empty()
    } else if s.len() >= 2 && s[0] == ESC && s[1] == LBRACK && find_byte(s.skip(2), LOW_M) < s.len()
        - 2 {
        strip_ansi(s.skip(find_byte(s.skip(2), LOW_M) + 3))
    } else {
        seq![s[0]] + strip_ansi(s.skip(1))
    }
}

#[via_fn]
proof fn strip_ansi_decreases(s: Seq<u8>) {
    if s.len() >= 2 {
        lemma_find_byte(s.skip(2), LOW_M);
    }
}

/// Runtime ANSI stripper.
pub fn strip_ansi_bytes(s: &Vec<u8>) -> (r: Vec<u8>)
    ensures
        r@ == strip_ansi(s@),
{
    let ghost full = s@;
    let mut out: Vec<u8> = Vec::new();
    let mut i: usize = 0;
    proof {
        assert(full.skip(0) =~= full);
    }
    while i < s.len()
        invariant
            0 <= i <= s.len(),
            full == s@,
            strip_ansi(full) == out@ + strip_ansi(full.skip(i as int)),
        decreases s.len() - i,
    {
        let ghost rest = full.skip(i as int);
        if s[i] == ESC && i + 1 < s.len() && s[i + 1] == LBRACK {
            // scan for the closing `m`
            let mut j: usize = i + 2;
            let mut found: bool = false;
            while j < s.len() && !found
                invariant
                    i + 2 <= j <= s.len(),
                    full == s@,
                    found ==> j < s.len() && full[j as int] == LOW_M,
                    forall|k: int| i + 2 <= k < j ==> full[k] != LOW_M,
                decreases s.len() - j + (if found { 0int } else { 1int }),
            {
                if s[j] == LOW_M {
                    found = true;
                } else {
                    j += 1;
                }
            }
            proof {
                assert(rest.len() == full.len() - i);
                assert(rest[0] == full[i as int] && rest[1] == full[i + 1]);
                assert forall|k: int| 0 <= k < j - i - 2 implies rest.skip(2)[k] != LOW_M by {
                    assert(rest.skip(2)[k] == full[i + 2 + k]);
                }
            }
            if found {
                proof {
                    assert(rest.skip(2)[j - i - 2] == full[j as int]);
                    lemma_find_byte_is(rest.skip(2), LOW_M, j - i - 2);
                    assert(strip_ansi(rest) == strip_ansi(rest.skip(j - i - 2 + 3)));
                    assert(rest.skip(j - i - 2 + 3) =~= full.skip(j + 1));
                }
                j += 1;
                i = j;
            } else {
                proof {
                    lemma_find_byte_is(rest.skip(2), LOW_M, rest.len() - 2);
                    assert(strip_ansi(rest) == seq![rest[0]] + strip_ansi(rest.skip(1)));
                    assert(rest.skip(1) =~= full.skip(i + 1));
                    assert(out@.push(full[i as int]) + strip_ansi(full.skip(i + 1)) =~= out@ + (
                    seq![full[i as int]] + strip_ansi(full.skip(i + 1))));
                }
                out.push(s[i]);
                i += 1;
            }
        } else {
            proof {
                assert(rest[0] == full[i as int]);
                if rest.len() >= 2 {
                    assert(rest[1] == full[i + 1]);
                }
                assert(strip_ansi(rest) == seq![rest[0]] + strip_ansi(rest.skip(1)));
                assert(rest.skip(1) =~= full.skip(i + 1));
                assert(out@.push(full[i as int]) + strip_ansi(full.skip(i + 1)) =~= out@ + (seq![
                    full[i as int],
                ] + strip_ansi(full.skip(i + 1))));
            }
            out.push(s[i]);
            i += 1;
        }
    }
    proof {
        assert(full.skip(full.len() as int) =~= Seq::<u8>::empty());
    }
    out
}

/// The decimal digits of `n`, most significant first.
pub open spec fn dec_digits(n: nat) -> Seq<u8>
    decreases n,
{
    if n < 10 {
        seq![(ZERO + n) as u8]
    } else {
        dec_digits(n / 10) + seq![(ZERO + n % 10) as u8]
    }
}

/// Formats a number in decimal.
pub fn format_usize(n: usize) -> (r: Vec<u8>)
    ensures
        r@ == dec_digits(n as nat),
    decreases n,
{
    if n < 10 {
        let mut v: Vec<u8> = Vec::new();
        v.push(ZERO + (n as u8));
        proof {
            assert(v@ =~= dec_digits(n as nat));
        }
        v
    } else {
        let mut v = format_usize(n / 10);
        v.push(ZERO + ((n % 10) as u8));
        proof {
            assert(v@ =~= dec_digits((n / 10) as nat) + seq![(ZERO + (n as nat) % 10) as u8]);
        }
        v
    }
}

/// ASCII whitespace, matching what the Rust standard library trims from the
/// ASCII range.
pub open spec fn is_ws(b: u8) -> bool {
    b == SP || b == 9 || b == NL || b == 11 || b == 12 || b == CR
}

/// `s` without its leading whitespace.
pub open spec fn trim_start(s: Seq<u8>) -> Seq<u8>
    decreases s.len(),
{
    if s.len() > 0 && is_ws(s[0]) {
        trim_start(s.skip(1))
    } else {
        s
    }
}

/// `s` without its trailing whitespace.
pub open spec fn trim_end(s: Seq<u8>) -> Seq<u8>
    decreases s.len(),
{
    if s.len() > 0 && is_ws(s[s.len() - 1]) {
        trim_end(s.drop_last())
    } else {
        s
    }
}

proof fn lemma_trim_start_skip(s: Seq<u8>, k: int)
    requires
        0 <= k <= s.len(),
        forall|j: int| 0 <= j < k ==> is_ws(s[j]),
        k < s.len() ==> !is_ws(s[k]),
    ensures
        trim_start(s) == s.skip(k),
    decreases k,
{
    if k == 0 {
        if s.len() > 0 {
            assert(!is_ws(s[0]));
        }
        assert(s.skip(0) =~= s);
    } else {
        assert(is_ws(s[0]));
        assert forall|j: int| 0 <= j < k - 1 implies is_ws(s.skip(1)[j]) by {
            assert(s.skip(1)[j] == s[j + 1]);
        }
        if k - 1 < s.skip(1).len() {
            assert(s.skip(1)[k - 1] == s[k]);
        }
        lemma_trim_start_skip(s.skip(1), k - 1);
        assert(s.skip(1).skip(k - 1) =~= s.skip(k));
    }
}

/// Removes leading whitespace at runtime.
pub fn trim_start_bytes(s: &Vec<u8>) -> (r: Vec<u8>)
    ensures
        r@ == trim_start(s@),
{
    let mut k: usize = 0;
    while k < s.len() && (s[k] == SP || s[k] == 9 || s[k] == NL || s[k] == 11 || s[k] == 12 || s[k]
        == CR)
        invariant
            0 <= k <= s.len(),
            forall|j: int| 0 <= j < k ==> is_ws(s@[j]),
        decreases s.len() - k,
    {
        k += 1;
    }
    let mut r: Vec<u8> = Vec::new();
    let mut i: usize = k;
    while i < s.len()
        invariant
            k <= i <= s.len(),
            r@ == s@.subrange(k as int, i as int),
        decreases s.len() - i,
    {
        r.push(s[i]);
        proof {
            assert(r@ =~= s@.subrange(k as int, i + 1));
        }
        i += 1;
    }
    proof {
        lemma_trim_start_skip(s@, k as int);
        assert(r@ =~= s@.skip(k as int));
    }
    r
}

proof fn lemma_trim_end_take(s: Seq<u8>, k: int)
    requires
        0 <= k <= s.len(),
        forall|j: int| k <= j < s.len() ==> is_ws(s[j]),
        k > 0 ==> !is_ws(s[k - 1]),
    ensures
        trim_end(s) == s.take(k),
    decreases s.len(),
{
    if s.len() == 0 {
        assert(s.take(0) =~= s);
    } else if is_ws(s[s.len() - 1]) {
        assert(k < s.len());
        assert forall|j: int| k <= j < s.drop_last().len() implies is_ws(s.drop_last()[j]) by {
            assert(s.drop_last()[j] == s[j]);
        }
        if k > 0 {
            assert(s.drop_last()[k - 1] == s[k - 1]);
        }
        lemma_trim_end_take(s.drop_last(), k);
        assert(s.drop_last().take(k) =~= s.take(k));
    } else {
        assert(k == s.len());
        assert(s.take(k) =~= s);
    }
}

/// Removes trailing whitespace at runtime.
pub fn trim_end_bytes(s: &Vec<u8>) -> (r: Vec<u8>)
    ensures
        r@ == trim_end(s@),
{
    let mut k: usize = s.len();
    while k > 0 && (s[k - 1] == SP || s[k - 1] == 9 || s[k - 1] == NL || s[k - 1] == 11 || s[k - 1]
        == 12 || s[k - 1] == CR)
        invariant
            0 <= k <= s.len(),
            forall|j: int| k <= j < s.len() ==> is_ws(s@[j]),
        decreases k,
    {
        k -= 1;
    }
    let mut r: Vec<u8> = Vec::new();
    let mut i: usize = 0;
    while i < k
        invariant
            0 <= i <= k <= s.len(),
            r@ == s@.take(i as int),
        decreases k - i,
    {
        r.push(s[i]);
        proof {
            assert(r@ =~= s@.take(i + 1));
        }
        i += 1;
    }
    proof {
        lemma_trim_end_take(s@, k as int);
    }
    r
}

/// The pattern `p` occurs in `s` at offset `k`.
pub open spec fn sub_at(s: Seq<u8>, p: Seq<u8>, k: int) -> bool {
    0 <= k && k + p.len() <= s.len() && (forall|j: int| 0 <= j < p.len() ==> s[k + j] == p[j])
}

/// `p` occurs somewhere in `s`.
pub open spec fn contains_sub(s: Seq<u8>, p: Seq<u8>) -> bool {
    exists|k: int| sub_at(s, p, k)
}

/// Runtime substring search.
pub fn contains_sub_bytes(s: &Vec<u8>, p: &Vec<u8>) -> (r: bool)
    ensures
        r == contains_sub(s@, p@),
{
    if p.len() > s.len() {
        return false;
    }
    let mut k: usize = 0;
    while k <= s.len() - p.len()
        invariant
            p.len() <= s.len(),
            0 <= k <= s.len() - p.len() + 1,
            forall|k2: int| 0 <= k2 < k ==> !sub_at(s@, p@, k2),
        decreases s.len() - k,
    {
        let mut j: usize = 0;
        let mut ok: bool = true;
        while j < p.len() && ok
            invariant
                0 <= j <= p.len(),
                k + p.len() <= s.len(),
                ok ==> forall|j2: int| 0 <= j2 < j ==> s@[k + j2] == p@[j2],
                !ok ==> !sub_at(s@, p@, k as int),
            decreases p.len() - j + (if ok { 1int } else { 0int }),
        {
            if s[k + j] != p[j] {
                ok = false;
            } else {
                j += 1;
            }
        }
        if ok {
            assert(sub_at(s@, p@, k as int));
            return true;
        }
        k += 1;
    }
    proof {
        assert forall|k2: int| sub_at(s@, p@, k2) implies false by {
            assert(k2 + p@.len() <= s@.len());
            assert(k2 <= s@.len() - p@.len());
            assert(k2 < k);
        }
    }
    false
}

/// Lexicographic byte order: `a` is less than or equal to `b`.
#[verifier::opaque]
pub open spec fn lex_leq(a: Seq<u8>, b: Seq<u8>) -> bool
    decreases a.len(),
{
    if a.len() == 0 {
        true
    } else if b.len() == 0 {
        false
    } else if a[0] < b[0] {
        true
    } else if a[0] > b[0] {
        false
    } else {
        lex_leq(a.skip(1), b.skip(1))
    }
}

pub proof fn lemma_lex_total(a: Seq<u8>, b: Seq<u8>)
    ensures
        lex_leq(a, b) || lex_leq(b, a),
    decreases a.len(),
{
    reveal(lex_leq);
    if a.len() == 0 || b.len() == 0 {
    } else if a[0] == b[0] {
        lemma_lex_total(a.skip(1), b.skip(1));
    }
}

pub proof fn lemma_lex_antisym(a: Seq<u8>, b: Seq<u8>)
    requires
        lex_leq(a, b),
        lex_leq(b, a),
    ensures
        a == b,
    decreases a.len(),
{
    reveal(lex_leq);
    if a.len() == 0 {
        assert(b.len() == 0);
        assert(a =~= b);
    } else {
        assert(b.len() > 0);
        assert(a[0] == b[0]);
        lemma_lex_antisym(a.skip(1), b.skip(1));
        assert(a =~= seq![a[0]] + a.skip(1));
        assert(b =~= seq![b[0]] + b.skip(1));
    }
}

pub proof fn lemma_lex_trans(a: Seq<u8>, b: Seq<u8>, c: Seq<u8>)
    requires
        lex_leq(a, b),
        lex_leq(b, c),
    ensures
        lex_leq(a, c),
    decreases a.len(),
{
    reveal(lex_leq);
    if a.len() == 0 {
    } else {
        assert(b.len() > 0);
        assert(c.len() > 0);
        if a[0] == b[0] && b[0] == c[0] {
            lemma_lex_trans(a.skip(1), b.skip(1), c.skip(1));
        }
    }
}

pub proof fn lemma_lex_refl(a: Seq<u8>)
    ensures
        lex_leq(a, a),
    decreases a.len(),
{
    reveal(lex_leq);
    if a.len() > 0 {
        lemma_lex_refl(a.skip(1));
    }
}

/// Runtime lexicographic comparison.
pub fn lex_leq_bytes(a: &Vec<u8>, b: &Vec<u8>) -> (r: bool)
    ensures
        r == lex_leq(a@, b@),
{
    let mut i: usize = 0;
    proof {
        reveal(lex_leq);
        assert(a@.skip(0) =~= a@);
        assert(b@.skip(0) =~= b@);
    }
    while i < a.len() && i < b.len() && a[i] == b[i]
        invariant
            0 <= i <= a.len(),
            i <= b.len(),
            forall|j: int| 0 <= j < i ==> a@[j] == b@[j],
            lex_leq(a@, b@) == lex_leq(a@.skip(i as int), b@.skip(i as int)),
        decreases a.len() - i,
    {
        proof {
            reveal(lex_leq);
            let sa = a@.skip(i as int);
            let sb = b@.skip(i as int);
            assert(sa[0] == a@[i as int] && sb[0] == b@[i as int]);
            assert(lex_leq(sa, sb) == lex_leq(sa.skip(1), sb.skip(1)));
            assert(sa.skip(1) =~= a@.skip(i + 1));
            assert(sb.skip(1) =~= b@.skip(i + 1));
        }
        i += 1;
    }
    proof {
        reveal(lex_leq);
        let sa = a@.skip(i as int);
        let sb = b@.skip(i as int);
        if i < a.len() && i < b.len() {
            assert(sa[0] == a@[i as int] && sb[0] == b@[i as int]);
        }
        if i >= a.len() {
            assert(sa.len() == 0);
        } else if i >= b.len() {
            assert(sb.len() == 0 && sa.len() > 0);
        }
    }
    if i >= a.len() {
        true
    } else if i >= b.len() {
        false
    } else {
        a[i] < b[i]
    }
}

/// Strict lexicographic byte order.
pub open spec fn lex_lt(a: Seq<u8>, b: Seq<u8>) -> bool {
    lex_leq(a, b) && a != b
}

/// Runtime strict comparison.
pub fn lex_lt_bytes(a: &Vec<u8>, b: &Vec<u8>) -> (r: bool)
    ensures
        r == lex_lt(a@, b@),
{
    let le = lex_leq_bytes(a, b);
    if !le {
        proof {
            if a@ == b@ {
                lemma_lex_refl(a@);
            }
        }
        return false;
    }
    let eq = bytes_eq(a, b);
    !eq
}

} // verus!
