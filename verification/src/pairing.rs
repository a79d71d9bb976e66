//! The pairing engine: pairs each removed base line with a plausibly
//! corresponding added head line inside a small line-number window, and turns
//! one file's records into an ordered list of changes to decide on.
use vstd::prelude::*;

use crate::model::{recs_increasing, EntryModel, FileEntry, LineKind, LineRecord, RecModel};
use crate::text::{append_bytes, copy_bytes, dec_digits, format_usize, COLON, SP};

verus! {

/// The user's decision on one change.
#[derive(Clone, Copy, PartialEq, Eq, Structural, Debug)]
pub enum ChangeState {
    Unselected,
    Accepted,
    Rejected,
}

/// One unit to decide on: a removed base line, possibly paired with an added
/// head line, or an unpaired added head line. The content keeps its marker
/// byte; the context lines are rendered as `<number>: <text>`.
pub struct Change {
    pub line_number: usize,
    pub content: Vec<u8>,
    pub paired_content: Option<Vec<u8>>,
    pub state: ChangeState,
    pub is_base: bool,
    pub context: Vec<Vec<u8>>,
}

/// Mathematical image of a change.
pub ghost struct ChangeModel {
    pub line_number: nat,
    pub content: Seq<u8>,
    pub paired_content: Option<Seq<u8>>,
    pub state: ChangeState,
    pub is_base: bool,
    pub context: Seq<Seq<u8>>,
}

impl View for Change {
    type V = ChangeModel;

    open spec fn view(&self) -> ChangeModel {
        ChangeModel {
            line_number: self.line_number as nat,
            content: self.content@,
            paired_content: match self.paired_content {
                Some(p) => Some(p@),
                None => None,
            },
            state: self.state,
            is_base: self.is_base,
            context: self.context.deep_view(),
        }
    }
}

impl DeepView for Change {
    type V = ChangeModel;

    open spec fn deep_view(&self) -> ChangeModel {
        self@
    }
}

impl Change {
    /// Copies a change.
    pub fn duplicate(&self) -> (r: Change)
        ensures
            r@ == self@,
    {
        let paired = match &self.paired_content {
            Some(p) => Some(copy_bytes(p)),
            None => None,
        };
        let mut context: Vec<Vec<u8>> = Vec::new();
        let mut i: usize = 0;
        while i < self.context.len()
            invariant
                0 <= i <= self.context@.len(),
                context.deep_view() == self.context.deep_view().take(i as int),
            decreases self.context@.len() - i,
        {
            let c = copy_bytes(&self.context[i]);
            let ghost cm = c@;
            let ghost prev = context.deep_view();
            context.push(c);
            proof {
                assert(context.deep_view() =~~= prev.push(cm));
                assert(cm =~= self.context.deep_view()[i as int]);
                assert(prev.push(cm) =~~= self.context.deep_view().take(i + 1));
            }
            i += 1;
        }
        proof {
            assert(self.context.deep_view().take(self.context.deep_view().len() as int)
                =~~= self.context.deep_view());
        }
        let r = Change {
            line_number: self.line_number,
            content: copy_bytes(&self.content),
            paired_content: paired,
            state: self.state,
            is_base: self.is_base,
            context,
        };
        proof {
            assert(r@ == self@);
        }
        r
    }
}

/// The records of one kind, in their original order.
pub open spec fn kind_recs(rs: Seq<RecModel>, k: LineKind) -> Seq<RecModel>
    decreases rs.len(),
{
    if rs.len() == 0 {
        Seq::empty()
    } else if rs.last().kind == k {
        kind_recs(rs.drop_last(), k).push(rs.last())
    } else {
        kind_recs(rs.drop_last(), k)
    }
}

/// The removed records of a base side.
pub open spec fn removed_recs(rs: Seq<RecModel>) -> Seq<RecModel> {
    kind_recs(rs, LineKind::Removed)
}

/// The added records of a head side.
pub open spec fn added_recs(rs: Seq<RecModel>) -> Seq<RecModel> {
    kind_recs(rs, LineKind::Added)
}

/// The filtered records keep their strict order and all come from the
/// original sequence.
pub proof fn lemma_kind_recs(rs: Seq<RecModel>, k: LineKind)
    requires
        recs_increasing(rs),
    ensures
        recs_increasing(kind_recs(rs, k)),
        forall|i: int|
            0 <= i < kind_recs(rs, k).len() ==> exists|j: int|
                0 <= j < rs.len() && #[trigger] kind_recs(rs, k)[i] == rs[j],
        forall|i: int|
            0 <= i < kind_recs(rs, k).len() ==> (#[trigger] kind_recs(rs, k)[i]).kind == k,
    decreases rs.len(),
{
    if rs.len() > 0 {
        let prev = rs.drop_last();
        assert forall|i: int, j: int| 0 <= i < j < prev.len() implies prev[i].line_number
            < prev[j].line_number by {
            assert(prev[i] == rs[i] && prev[j] == rs[j]);
        }
        lemma_kind_recs(prev, k);
        let fp = kind_recs(prev, k);
        assert forall|i: int|
            0 <= i < fp.len() implies exists|j: int| 0 <= j < rs.len() && #[trigger] fp[i]
            == rs[j] by {
            let j = choose|j: int| 0 <= j < prev.len() && fp[i] == prev[j];
            assert(prev[j] == rs[j]);
            assert(fp[i] == rs[j]);
        }
        if rs.last().kind == k {
            let f = fp.push(rs.last());
            assert(rs.last() == rs[rs.len() - 1]);
            assert forall|i: int, j: int| 0 <= i < j < f.len() implies f[i].line_number
                < f[j].line_number by {
                if j == f.len() - 1 {
                    let j2 = choose|j2: int| 0 <= j2 < prev.len() && f[i] == prev[j2];
                    assert(rs[j2].line_number < rs[rs.len() - 1].line_number);
                } else {
                    assert(f[i] == fp[i] && f[j] == fp[j]);
                }
            }
        }
    }
}

/// The line numbers lie within the pairing window: their distance is below 5.
pub open spec fn close_lines(a: nat, b: nat) -> bool {
    -5 < a - b < 5
}

/// The first added record whose line number lies within the window of `num`.
pub open spec fn pair_for(num: nat, added: Seq<RecModel>) -> Option<RecModel>
    decreases added.len(),
{
    if added.len() == 0 {
        None
    } else if close_lines(added[0].line_number, num) {
        Some(added[0])
    } else {
        pair_for(num, added.skip(1))
    }
}

/// Some removed record claims the added line numbered `n` as its pair.
pub open spec fn is_claimed(n: nat, removed: Seq<RecModel>, added: Seq<RecModel>) -> bool {
    exists|i: int|
        0 <= i < removed.len() && ((#[trigger] pair_for(removed[i].line_number, added))
            matches Some(p) && p.line_number == n)
}

/// Finds the pairing partner of the removed line numbered `num`.
fn find_pair(num: usize, added: &Vec<LineRecord>) -> (r: Option<LineRecord>)
    ensures
        match r {
            Some(rec) => pair_for(num as nat, added.deep_view()) == Some(rec@),
            None => pair_for(num as nat, added.deep_view()) is None,
        },
{
    let ghost am = added.deep_view();
    let mut j: usize = 0;
    proof {
        assert(am.skip(0) =~= am);
    }
    while j < added.len()
        invariant
            0 <= j <= added@.len(),
            am == added.deep_view(),
            am.len() == added@.len(),
            pair_for(num as nat, am) == pair_for(num as nat, am.skip(j as int)),
        decreases added@.len() - j,
    {
        let a = &added[j];
        let dist = if a.line_number >= num {
            a.line_number - num
        } else {
            num - a.line_number
        };
        proof {
            assert(am.skip(j as int)[0] == am[j as int]);
            assert(am[j as int] == added@[j as int]@);
        }
        if dist < 5 {
            proof {
                assert(close_lines(am[j as int].line_number, num as nat));
            }
            return Some(a.duplicate());
        }
        proof {
            assert(!close_lines(am[j as int].line_number, num as nat));
            assert(am.skip(j as int).skip(1) =~= am.skip(j + 1));
        }
        j += 1;
    }
    proof {
        assert(am.skip(am.len() as int) =~= Seq::<RecModel>::empty());
    }
    None
}

/// `n` stands within the context window of the change at `num`: at most 3
/// lines away on either side, at least line 1, and not the change itself.
pub open spec fn ctx_window(ln: nat, num: nat) -> bool {
    &&& ln != num
    &&& (if num > 3 {
        num - 3
    } else {
        1
    }) <= ln
    &&& ln <= num + 3
}

/// A context line as it is shown beside a change: `<number>: <text>`.
pub open spec fn ctx_format(r: RecModel) -> Seq<u8> {
    dec_digits(r.line_number) + seq![COLON, SP] + r.text
}

/// The rendered context lines around the line numbered `num`: every same-side
/// record within the window, in order.
pub open spec fn ctx_lines(lines: Seq<RecModel>, num: nat) -> Seq<Seq<u8>>
    decreases lines.len(),
{
    if lines.len() == 0 {
        Seq::empty()
    } else {
        let prev = ctx_lines(lines.drop_last(), num);
        if ctx_window(lines.last().line_number, num) {
            prev.push(ctx_format(lines.last()))
        } else {
            prev
        }
    }
}

/// Renders the context window around `num` from one side's records.
fn context_for(lines: &Vec<LineRecord>, num: usize) -> (r: Vec<Vec<u8>>)
    ensures
        r.deep_view() == ctx_lines(lines.deep_view(), num as nat),
{
    let ghost lm = lines.deep_view();
    let mut out: Vec<Vec<u8>> = Vec::new();
    let mut i: usize = 0;
    proof {
        assert(out.deep_view() =~~= ctx_lines(lm.take(0), num as nat));
    }
    while i < lines.len()
        invariant
            0 <= i <= lines@.len(),
            lm == lines.deep_view(),
            lm.len() == lines@.len(),
            out.deep_view() == ctx_lines(lm.take(i as int), num as nat),
        decreases lines@.len() - i,
    {
        let r = &lines[i];
        proof {
            assert(lm[i as int] == lines@[i as int]@);
            assert(lm.take(i + 1).drop_last() =~= lm.take(i as int));
            assert(lm.take(i + 1).last() == lm[i as int]);
        }
        let ln = r.line_number;
        let in_window = ln != num && (if num > 3 {
            ln >= num - 3
        } else {
            ln >= 1
        }) && (ln <= num || ln - num <= 3);
        if in_window {
            proof {
                assert(ctx_window(lm[i as int].line_number, num as nat));
            }
            let mut formatted = format_usize(ln);
            formatted.push(COLON);
            formatted.push(SP);
            append_bytes(&mut formatted, &r.text);
            proof {
                assert(formatted@ =~= ctx_format(lm[i as int]));
            }
            let ghost prev = out.deep_view();
            out.push(formatted);
            proof {
                assert(out.deep_view() =~~= prev.push(ctx_format(lm[i as int])));
            }
        } else {
            proof {
                assert(!ctx_window(lm[i as int].line_number, num as nat));
            }
        }
        i += 1;
    }
    proof {
        assert(lm.take(lm.len() as int) =~= lm);
    }
    out
}

/// The change built for one removed base record: its pair, if the window
/// holds one, becomes the paired content.
pub open spec fn base_change(r: RecModel, added: Seq<RecModel>, base: Seq<RecModel>) -> ChangeModel {
    ChangeModel {
        line_number: r.line_number,
        content: r.text,
        paired_content: match pair_for(r.line_number, added) {
            Some(p) => Some(p.text),
            None => None,
        },
        state: ChangeState::Unselected,
        is_base: true,
        context: ctx_lines(base, r.line_number),
    }
}

/// One change per removed record, in base order.
pub open spec fn base_changes(
    removed: Seq<RecModel>,
    added: Seq<RecModel>,
    base: Seq<RecModel>,
) -> Seq<ChangeModel>
    decreases removed.len(),
{
    if removed.len() == 0 {
        Seq::empty()
    } else {
        base_changes(removed.drop_last(), added, base).push(
            base_change(removed.last(), added, base),
        )
    }
}

/// The change built for one unpaired added head record.
pub open spec fn head_change(a: RecModel, head: Seq<RecModel>) -> ChangeModel {
    ChangeModel {
        line_number: a.line_number,
        content: a.text,
        paired_content: None,
        state: ChangeState::Unselected,
        is_base: false,
        context: ctx_lines(head, a.line_number),
    }
}

/// One change per added record that no pairing consumed, in head order.
pub open spec fn head_changes(
    added_all: Seq<RecModel>,
    removed: Seq<RecModel>,
    added: Seq<RecModel>,
    head: Seq<RecModel>,
) -> Seq<ChangeModel>
    decreases added_all.len(),
{
    if added_all.len() == 0 {
        Seq::empty()
    } else {
        let prev = head_changes(added_all.drop_last(), removed, added, head);
        if !is_claimed(added_all.last().line_number, removed, added) {
            prev.push(head_change(added_all.last(), head))
        } else {
            prev
        }
    }
}

/// Merges two change lists by line number, base-side changes first on ties.
pub open spec fn merge_changes(b: Seq<ChangeModel>, h: Seq<ChangeModel>) -> Seq<ChangeModel>
    decreases b.len() + h.len(),
{
    if b.len() == 0 {
        h
    } else if h.len() == 0 {
        b
    } else if b[0].line_number <= h[0].line_number {
        seq![b[0]] + merge_changes(b.skip(1), h)
    } else {
        seq![h[0]] + merge_changes(b, h.skip(1))
    }
}

/// The full change list of one file: a change for every removed base line,
/// paired where the window finds a partner, a change for every added head
/// line not consumed by a pairing, merged in ascending line-number order.
#[verifier::opaque]
pub open spec fn spec_changes(e: EntryModel) -> Seq<ChangeModel> {
    let removed = removed_recs(e.base);
    let added = added_recs(e.head);
    merge_changes(
        base_changes(removed, added, e.base),
        head_changes(added, removed, added, e.head),
    )
}

proof fn lemma_base_changes_map(removed: Seq<RecModel>, added: Seq<RecModel>, base: Seq<RecModel>)
    ensures
        base_changes(removed, added, base).len() == removed.len(),
        forall|k: int|
            0 <= k < removed.len() ==> #[trigger] base_changes(removed, added, base)[k]
                == base_change(removed[k], added, base),
    decreases removed.len(),
{
    if removed.len() > 0 {
        lemma_base_changes_map(removed.drop_last(), added, base);
        assert forall|k: int|
            0 <= k < removed.len() implies #[trigger] base_changes(removed, added, base)[k]
            == base_change(removed[k], added, base) by {
            if k < removed.len() - 1 {
                assert(removed.drop_last()[k] == removed[k]);
            } else {
                assert(removed.last() == removed[k]);
            }
        }
    }
}

proof fn lemma_head_changes_props(
    added_all: Seq<RecModel>,
    removed: Seq<RecModel>,
    added: Seq<RecModel>,
    head: Seq<RecModel>,
)
    ensures
        forall|k: int|
            0 <= k < head_changes(added_all, removed, added, head).len() ==> exists|j: int|
                0 <= j < added_all.len() && #[trigger] head_changes(added_all, removed, added, head)[k]
                    == head_change(added_all[j], head) && !is_claimed(
                    added_all[j].line_number,
                    removed,
                    added,
                ),
    decreases added_all.len(),
{
    if added_all.len() > 0 {
        lemma_head_changes_props(added_all.drop_last(), removed, added, head);
        let prevs = head_changes(added_all.drop_last(), removed, added, head);
        let hc = head_changes(added_all, removed, added, head);
        assert forall|k: int| 0 <= k < hc.len() implies exists|j: int|
            0 <= j < added_all.len() && #[trigger] hc[k] == head_change(added_all[j], head)
                && !is_claimed(added_all[j].line_number, removed, added) by {
            if k < prevs.len() {
                assert(hc[k] == prevs[k]);
                let j = choose|j: int|
                    0 <= j < added_all.drop_last().len() && prevs[k] == head_change(
                        added_all.drop_last()[j],
                        head,
                    ) && !is_claimed(added_all.drop_last()[j].line_number, removed, added);
                assert(added_all.drop_last()[j] == added_all[j]);
                assert(hc[k] == head_change(added_all[j], head));
            } else {
                assert(!is_claimed(added_all.last().line_number, removed, added));
                assert(hc[k] == head_change(added_all[added_all.len() - 1], head));
            }
        }
    }
}

/// Changes ordered (weakly) by line number.
pub open spec fn changes_sorted(cs: Seq<ChangeModel>) -> bool {
    forall|i: int, j: int| 0 <= i < j < cs.len() ==> cs[i].line_number <= cs[j].line_number
}

/// Changes ordered strictly by line number.
pub open spec fn changes_strict(cs: Seq<ChangeModel>) -> bool {
    forall|i: int, j: int| 0 <= i < j < cs.len() ==> cs[i].line_number < cs[j].line_number
}

proof fn lemma_merge_elements(b: Seq<ChangeModel>, h: Seq<ChangeModel>)
    ensures
        merge_changes(b, h).len() == b.len() + h.len(),
        forall|k: int|
            0 <= k < merge_changes(b, h).len() ==> b.contains(#[trigger] merge_changes(b, h)[k])
                || h.contains(merge_changes(b, h)[k]),
    decreases b.len() + h.len(),
{
    let m = merge_changes(b, h);
    if b.len() == 0 {
        assert forall|k: int| 0 <= k < m.len() implies b.contains(#[trigger] m[k]) || h.contains(
            m[k],
        ) by {
            assert(h[k] == m[k]);
        }
    } else if h.len() == 0 {
        assert forall|k: int| 0 <= k < m.len() implies b.contains(#[trigger] m[k]) || h.contains(
            m[k],
        ) by {
            assert(b[k] == m[k]);
        }
    } else if b[0].line_number <= h[0].line_number {
        lemma_merge_elements(b.skip(1), h);
        let m2 = merge_changes(b.skip(1), h);
        assert forall|k: int| 0 <= k < m.len() implies b.contains(#[trigger] m[k]) || h.contains(
            m[k],
        ) by {
            if k == 0 {
                assert(m[0] == b[0]);
                assert(b.contains(b[0]));
            } else {
                assert(m[k] == m2[k - 1]);
                if b.skip(1).contains(m2[k - 1]) {
                    let i = choose|i: int| 0 <= i < b.skip(1).len() && b.skip(1)[i] == m2[k - 1];
                    assert(b[i + 1] == m2[k - 1]);
                    assert(b.contains(m[k]));
                }
            }
        }
    } else {
        lemma_merge_elements(b, h.skip(1));
        let m2 = merge_changes(b, h.skip(1));
        assert forall|k: int| 0 <= k < m.len() implies b.contains(#[trigger] m[k]) || h.contains(
            m[k],
        ) by {
            if k == 0 {
                assert(m[0] == h[0]);
                assert(h.contains(h[0]));
            } else {
                assert(m[k] == m2[k - 1]);
                if h.skip(1).contains(m2[k - 1]) {
                    let i = choose|i: int| 0 <= i < h.skip(1).len() && h.skip(1)[i] == m2[k - 1];
                    assert(h[i + 1] == m2[k - 1]);
                    assert(h.contains(m[k]));
                }
            }
        }
    }
}

proof fn lemma_merge_sorted(b: Seq<ChangeModel>, h: Seq<ChangeModel>)
    requires
        changes_strict(b),
        changes_strict(h),
    ensures
        changes_sorted(merge_changes(b, h)),
    decreases b.len() + h.len(),
{
    let m = merge_changes(b, h);
    if b.len() == 0 || h.len() == 0 {
    } else if b[0].line_number <= h[0].line_number {
        assert forall|i2: int, j2: int| 0 <= i2 < j2 < b.skip(1).len() implies b.skip(
            1,
        )[i2].line_number < b.skip(1)[j2].line_number by {
            assert(b.skip(1)[i2] == b[i2 + 1] && b.skip(1)[j2] == b[j2 + 1]);
        }
        lemma_merge_sorted(b.skip(1), h);
        lemma_merge_elements(b.skip(1), h);
        let m2 = merge_changes(b.skip(1), h);
        assert forall|i: int, j: int| 0 <= i < j < m.len() implies m[i].line_number
            <= m[j].line_number by {
            if i == 0 {
                assert(m[j] == m2[j - 1]);
                if b.skip(1).contains(m2[j - 1]) {
                    let k = choose|k: int| 0 <= k < b.skip(1).len() && b.skip(1)[k] == m2[j - 1];
                    assert(b.skip(1)[k] == b[k + 1]);
                    assert(b[0].line_number < b[k + 1].line_number);
                } else {
                    let k = choose|k: int| 0 <= k < h.len() && h[k] == m2[j - 1];
                    if k > 0 {
                        assert(h[0].line_number < h[k].line_number);
                    }
                }
            } else {
                assert(m[i] == m2[i - 1] && m[j] == m2[j - 1]);
            }
        }
    } else {
        assert forall|i2: int, j2: int| 0 <= i2 < j2 < h.skip(1).len() implies h.skip(
            1,
        )[i2].line_number < h.skip(1)[j2].line_number by {
            assert(h.skip(1)[i2] == h[i2 + 1] && h.skip(1)[j2] == h[j2 + 1]);
        }
        lemma_merge_sorted(b, h.skip(1));
        lemma_merge_elements(b, h.skip(1));
        let m2 = merge_changes(b, h.skip(1));
        assert forall|i: int, j: int| 0 <= i < j < m.len() implies m[i].line_number
            <= m[j].line_number by {
            if i == 0 {
                assert(m[j] == m2[j - 1]);
                if h.skip(1).contains(m2[j - 1]) {
                    let k = choose|k: int| 0 <= k < h.skip(1).len() && h.skip(1)[k] == m2[j - 1];
                    assert(h.skip(1)[k] == h[k + 1]);
                    assert(h[0].line_number < h[k + 1].line_number);
                } else {
                    let k = choose|k: int| 0 <= k < b.len() && b[k] == m2[j - 1];
                    if k > 0 {
                        assert(b[0].line_number < b[k].line_number);
                    }
                }
            } else {
                assert(m[i] == m2[i - 1] && m[j] == m2[j - 1]);
            }
        }
    }
}

/// The change list of a well-formed file entry is sorted by line number.
pub proof fn lemma_spec_changes_sorted(e: EntryModel)
    requires
        recs_increasing(e.base),
        recs_increasing(e.head),
    ensures
        changes_sorted(spec_changes(e)),
{
    reveal(spec_changes);
    let removed = removed_recs(e.base);
    let added = added_recs(e.head);
    lemma_kind_recs(e.base, LineKind::Removed);
    lemma_kind_recs(e.head, LineKind::Added);
    let bc = base_changes(removed, added, e.base);
    lemma_base_changes_map(removed, added, e.base);
    assert forall|i: int, j: int| 0 <= i < j < bc.len() implies bc[i].line_number
        < bc[j].line_number by {
        assert(bc[i] == base_change(removed[i], added, e.base));
        assert(bc[j] == base_change(removed[j], added, e.base));
    }
    let hc = head_changes(added, removed, added, e.head);
    lemma_head_changes_props(added, removed, added, e.head);
    assert forall|i: int, j: int| 0 <= i < j < hc.len() implies hc[i].line_number
        < hc[j].line_number by {
        lemma_head_changes_strict(added, removed, added, e.head);
    }
    lemma_merge_sorted(bc, hc);
}

proof fn lemma_head_changes_strict(
    added_all: Seq<RecModel>,
    removed: Seq<RecModel>,
    added: Seq<RecModel>,
    head: Seq<RecModel>,
)
    requires
        recs_increasing(added_all),
    ensures
        changes_strict(head_changes(added_all, removed, added, head)),
        forall|k: int|
            0 <= k < head_changes(added_all, removed, added, head).len() ==> exists|j: int|
                0 <= j < added_all.len() && (#[trigger] head_changes(
                    added_all,
                    removed,
                    added,
                    head,
                )[k]).line_number == added_all[j].line_number,
    decreases added_all.len(),
{
    if added_all.len() > 0 {
        let prev_all = added_all.drop_last();
        assert forall|i: int, j: int| 0 <= i < j < prev_all.len() implies prev_all[i].line_number
            < prev_all[j].line_number by {
            assert(prev_all[i] == added_all[i] && prev_all[j] == added_all[j]);
        }
        lemma_head_changes_strict(prev_all, removed, added, head);
        let prevs = head_changes(prev_all, removed, added, head);
        let hc = head_changes(added_all, removed, added, head);
        assert forall|k: int| 0 <= k < hc.len() implies exists|j: int|
            0 <= j < added_all.len() && (#[trigger] hc[k]).line_number
                == added_all[j].line_number by {
            if k < prevs.len() {
                assert(hc[k] == prevs[k]);
                let j = choose|j: int|
                    0 <= j < prev_all.len() && prevs[k].line_number == prev_all[j].line_number;
                assert(added_all[j] == prev_all[j]);
                assert(hc[k].line_number == added_all[j].line_number);
            } else {
                assert(hc[k] == head_change(added_all[added_all.len() - 1], head));
                assert(hc[k].line_number == added_all[added_all.len() - 1].line_number);
            }
        }
        assert forall|i: int, j: int| 0 <= i < j < hc.len() implies hc[i].line_number
            < hc[j].line_number by {
            if j < prevs.len() {
                assert(hc[i] == prevs[i] && hc[j] == prevs[j]);
            } else {
                assert(hc[i] == prevs[i]);
                let j2 = choose|j2: int|
                    0 <= j2 < prev_all.len() && prevs[i].line_number == prev_all[j2].line_number;
                assert(prev_all[j2] == added_all[j2]);
                assert(added_all[j2].line_number < added_all[added_all.len() - 1].line_number);
                assert(hc[j] == head_change(added_all[added_all.len() - 1], head));
            }
        }
    }
}

/// No double consumption: a head line consumed by a pairing never surfaces as
/// a change of its own. Every head-side change in a file's change list bears
/// a line number that no pairing claimed.
pub proof fn lemma_no_double_consumption(e: EntryModel)
    ensures
        forall|k: int|
            0 <= k < spec_changes(e).len() && !(#[trigger] spec_changes(e)[k]).is_base
                ==> !is_claimed(
                spec_changes(e)[k].line_number,
                removed_recs(e.base),
                added_recs(e.head),
            ),
{
    reveal(spec_changes);
    let removed = removed_recs(e.base);
    let added = added_recs(e.head);
    let bc = base_changes(removed, added, e.base);
    let hc = head_changes(added, removed, added, e.head);
    lemma_base_changes_map(removed, added, e.base);
    lemma_head_changes_props(added, removed, added, e.head);
    lemma_merge_elements(bc, hc);
    let m = spec_changes(e);
    assert forall|k: int| 0 <= k < m.len() && !(#[trigger] m[k]).is_base implies !is_claimed(
        m[k].line_number,
        removed,
        added,
    ) by {
        if bc.contains(m[k]) {
            let i = choose|i: int| 0 <= i < bc.len() && bc[i] == m[k];
            assert(bc[i] == base_change(removed[i], added, e.base));
            assert(m[k].is_base);
        } else {
            let i = choose|i: int| 0 <= i < hc.len() && hc[i] == m[k];
            let j = choose|j: int|
                0 <= j < added.len() && hc[i] == head_change(added[j], e.head) && !is_claimed(
                    added[j].line_number,
                    removed,
                    added,
                );
            assert(m[k].line_number == added[j].line_number);
        }
    }
}

/// The pairing window: for a file holding exactly one removed and one added
/// line, the two are paired exactly when their line numbers lie less than 5
/// apart; a pair leaves one change, no pair leaves two.
pub proof fn lemma_pairing_window(e: EntryModel)
    requires
        e.base.len() == 1,
        e.head.len() == 1,
        e.base[0].kind is Removed,
        e.head[0].kind is Added,
    ensures
        close_lines(e.head[0].line_number, e.base[0].line_number) ==> spec_changes(e) == seq![
            base_change(e.base[0], seq![e.head[0]], e.base),
        ] && spec_changes(e)[0].paired_content == Some(e.head[0].text),
        !close_lines(e.head[0].line_number, e.base[0].line_number) ==> spec_changes(e).len() == 2
            && (exists|k: int|
            0 <= k < 2 && (#[trigger] spec_changes(e)[k]).is_base && spec_changes(e)[k].line_number
                == e.base[0].line_number && spec_changes(e)[k].paired_content is None) && (exists|
            k: int,
        |
            0 <= k < 2 && !(#[trigger] spec_changes(e)[k]).is_base && spec_changes(
                e,
            )[k].line_number == e.head[0].line_number),
{
    reveal(spec_changes);
    let b0 = e.base[0];
    let a0 = e.head[0];
    assert(e.base.last() == b0 && e.head.last() == a0);
    assert(e.base.drop_last() =~= Seq::<RecModel>::empty());
    assert(e.head.drop_last() =~= Seq::<RecModel>::empty());
    let removed = removed_recs(e.base);
    let added = added_recs(e.head);
    assert(b0.kind == LineKind::Removed);
    assert(a0.kind == LineKind::Added);
    assert(kind_recs(Seq::<RecModel>::empty(), LineKind::Removed) == Seq::<RecModel>::empty());
    assert(kind_recs(Seq::<RecModel>::empty(), LineKind::Added) == Seq::<RecModel>::empty());
    assert(removed == kind_recs(e.base, LineKind::Removed));
    assert(removed =~= seq![b0]);
    assert(added =~= seq![a0]);
    assert(seq![b0].last() == b0 && seq![a0].last() == a0);
    assert(seq![b0].drop_last() =~= Seq::<RecModel>::empty());
    assert(seq![a0].drop_last() =~= Seq::<RecModel>::empty());
    let bc = base_changes(removed, added, e.base);
    assert(seq![b0].drop_last() =~= Seq::<RecModel>::empty());
    assert(seq![a0].drop_last() =~= Seq::<RecModel>::empty());
    assert(base_changes(Seq::<RecModel>::empty(), added, e.base) == Seq::<ChangeModel>::empty());
    assert(head_changes(Seq::<RecModel>::empty(), removed, added, e.head)
        == Seq::<ChangeModel>::empty());
    assert(bc =~= seq![base_change(b0, added, e.base)]);
    assert(added[0] == a0);
    if close_lines(a0.line_number, b0.line_number) {
        assert(pair_for(b0.line_number, added) == Some(a0));
        assert(is_claimed(a0.line_number, removed, added)) by {
            assert(removed[0].line_number == b0.line_number);
        }
        let hc = head_changes(added, removed, added, e.head);
        assert(hc =~= Seq::<ChangeModel>::empty());
        assert(merge_changes(bc, hc) == bc);
        assert(spec_changes(e)[0].paired_content == Some(a0.text));
    } else {
        assert(added.skip(1) =~= Seq::<RecModel>::empty());
        assert(pair_for(b0.line_number, Seq::<RecModel>::empty()) is None);
        assert(pair_for(b0.line_number, added) is None);
        assert(!is_claimed(a0.line_number, removed, added)) by {
            assert forall|i: int|
                0 <= i < removed.len() implies !((#[trigger] pair_for(
                removed[i].line_number,
                added,
            )) matches Some(p) && p.line_number == a0.line_number) by {
                assert(removed[i] == b0);
                assert(pair_for(b0.line_number, added) is None);
            }
        }
        let hc = head_changes(added, removed, added, e.head);
        assert(hc =~= seq![head_change(a0, e.head)]);
        let m = merge_changes(bc, hc);
        if bc[0].line_number <= hc[0].line_number {
            assert(bc.skip(1) =~= Seq::<ChangeModel>::empty());
            assert(merge_changes(bc.skip(1), hc) == hc);
            assert(m == seq![bc[0]] + hc);
            assert(m =~= seq![bc[0], hc[0]]);
            assert(m[0].is_base && m[0].line_number == b0.line_number && m[0].paired_content
                is None);
            assert(!m[1].is_base && m[1].line_number == a0.line_number);
        } else {
            assert(hc.skip(1) =~= Seq::<ChangeModel>::empty());
            assert(merge_changes(bc, hc.skip(1)) == bc);
            assert(m == seq![hc[0]] + bc);
            assert(m =~= seq![hc[0], bc[0]]);
            assert(m[1].is_base && m[1].line_number == b0.line_number && m[1].paired_content
                is None);
            assert(!m[0].is_base && m[0].line_number == a0.line_number);
        }
    }
}

/// Tests whether some removed record claims the added line numbered `n`.
fn is_claimed_exec(n: usize, removed: &Vec<LineRecord>, added: &Vec<LineRecord>) -> (r: bool)
    ensures
        r == is_claimed(n as nat, removed.deep_view(), added.deep_view()),
{
    let ghost rm = removed.deep_view();
    let ghost am = added.deep_view();
    let mut k: usize = 0;
    while k < removed.len()
        invariant
            0 <= k <= removed@.len(),
            rm == removed.deep_view(),
            am == added.deep_view(),
            rm.len() == removed@.len(),
            forall|k2: int|
                0 <= k2 < k ==> !((#[trigger] pair_for(rm[k2].line_number, am)) matches Some(p)
                    && p.line_number == n as nat),
        decreases removed@.len() - k,
    {
        proof {
            assert(rm[k as int] == removed@[k as int]@);
        }
        let p = find_pair(removed[k].line_number, added);
        if let Some(rec) = p {
            if rec.line_number == n {
                proof {
                    assert(pair_for(rm[k as int].line_number, am) == Some(rec@));
                    assert(is_claimed(n as nat, rm, am));
                }
                return true;
            }
        }
        k += 1;
    }
    proof {
        assert(!is_claimed(n as nat, rm, am));
    }
    false
}

/// Derives the ordered change list of one file from its base and head
/// records: removed lines paired inside the window, unpaired added lines on
/// their own, everything merged by line number with base changes first.
pub fn pair_changes(entry: &FileEntry) -> (r: Vec<Change>)
    ensures
        r.deep_view() == spec_changes(entry@),
{
    let ghost basem = entry.base.deep_view();
    let ghost headm = entry.head.deep_view();
    // the removed base records
    let mut removed: Vec<LineRecord> = Vec::new();
    let mut i: usize = 0;
    proof {
        assert(removed.deep_view() =~= kind_recs(basem.take(0), LineKind::Removed));
    }
    while i < entry.base.len()
        invariant
            0 <= i <= entry.base@.len(),
            basem == entry.base.deep_view(),
            basem.len() == entry.base@.len(),
            removed.deep_view() == kind_recs(basem.take(i as int), LineKind::Removed),
        decreases entry.base@.len() - i,
    {
        let rec = &entry.base[i];
        proof {
            assert(basem[i as int] == entry.base@[i as int]@);
            assert(basem.take(i + 1).drop_last() =~= basem.take(i as int));
            assert(basem.take(i + 1).last() == basem[i as int]);
        }
        if rec.kind == LineKind::Removed {
            let ghost prev = removed.deep_view();
            removed.push(rec.duplicate());
            proof {
                assert(removed.deep_view() =~= prev.push(basem[i as int]));
            }
        }
        i += 1;
    }
    proof {
        assert(basem.take(basem.len() as int) =~= basem);
    }
    // the added head records
    let mut added: Vec<LineRecord> = Vec::new();
    let mut i2: usize = 0;
    proof {
        assert(added.deep_view() =~= kind_recs(headm.take(0), LineKind::Added));
    }
    while i2 < entry.head.len()
        invariant
            0 <= i2 <= entry.head@.len(),
            headm == entry.head.deep_view(),
            headm.len() == entry.head@.len(),
            added.deep_view() == kind_recs(headm.take(i2 as int), LineKind::Added),
        decreases entry.head@.len() - i2,
    {
        let rec = &entry.head[i2];
        proof {
            assert(headm[i2 as int] == entry.head@[i2 as int]@);
            assert(headm.take(i2 + 1).drop_last() =~= headm.take(i2 as int));
            assert(headm.take(i2 + 1).last() == headm[i2 as int]);
        }
        if rec.kind == LineKind::Added {
            let ghost prev = added.deep_view();
            added.push(rec.duplicate());
            proof {
                assert(added.deep_view() =~= prev.push(headm[i2 as int]));
            }
        }
        i2 += 1;
    }
    proof {
        assert(headm.take(headm.len() as int) =~= headm);
    }
    let ghost rm = removed.deep_view();
    let ghost am = added.deep_view();
    // the base-origin changes
    let mut base_cs: Vec<Change> = Vec::new();
    let mut i3: usize = 0;
    proof {
        assert(base_cs.deep_view() =~~= base_changes(rm.take(0), am, basem));
    }
    while i3 < removed.len()
        invariant
            0 <= i3 <= removed@.len(),
            rm == removed.deep_view(),
            am == added.deep_view(),
            rm.len() == removed@.len(),
            basem == entry.base.deep_view(),
            base_cs.deep_view() == base_changes(rm.take(i3 as int), am, basem),
        decreases removed@.len() - i3,
    {
        let r = &removed[i3];
        proof {
            assert(rm[i3 as int] == removed@[i3 as int]@);
            assert(rm.take(i3 + 1).drop_last() =~= rm.take(i3 as int));
            assert(rm.take(i3 + 1).last() == rm[i3 as int]);
        }
        let p = find_pair(r.line_number, &added);
        let ctx = context_for(&entry.base, r.line_number);
        let paired: Option<Vec<u8>> = match p {
            Some(rec) => Some(rec.text),
            None => None,
        };
        let c = Change {
            line_number: r.line_number,
            content: copy_bytes(&r.text),
            paired_content: paired,
            state: ChangeState::Unselected,
            is_base: true,
            context: ctx,
        };
        proof {
            assert(c@ == base_change(rm[i3 as int], am, basem));
        }
        let ghost prev = base_cs.deep_view();
        base_cs.push(c);
        proof {
            assert(base_cs.deep_view() =~= prev.push(base_change(rm[i3 as int], am, basem)));
        }
        i3 += 1;
    }
    proof {
        assert(rm.take(rm.len() as int) =~= rm);
    }
    // the unclaimed head-origin changes
    let mut head_cs: Vec<Change> = Vec::new();
    let mut i4: usize = 0;
    proof {
        assert(head_cs.deep_view() =~~= head_changes(am.take(0), rm, am, headm));
    }
    while i4 < added.len()
        invariant
            0 <= i4 <= added@.len(),
            rm == removed.deep_view(),
            am == added.deep_view(),
            am.len() == added@.len(),
            headm == entry.head.deep_view(),
            head_cs.deep_view() == head_changes(am.take(i4 as int), rm, am, headm),
        decreases added@.len() - i4,
    {
        let a = &added[i4];
        proof {
            assert(am[i4 as int] == added@[i4 as int]@);
            assert(am.take(i4 + 1).drop_last() =~= am.take(i4 as int));
            assert(am.take(i4 + 1).last() == am[i4 as int]);
        }
        let claimed = is_claimed_exec(a.line_number, &removed, &added);
        if !claimed {
            let ctx = context_for(&entry.head, a.line_number);
            let c = Change {
                line_number: a.line_number,
                content: copy_bytes(&a.text),
                paired_content: None,
                state: ChangeState::Unselected,
                is_base: false,
                context: ctx,
            };
            proof {
                assert(c@ == head_change(am[i4 as int], headm));
            }
            let ghost prev = head_cs.deep_view();
            head_cs.push(c);
            proof {
                assert(head_cs.deep_view() =~= prev.push(head_change(am[i4 as int], headm)));
            }
        }
        i4 += 1;
    }
    proof {
        assert(am.take(am.len() as int) =~= am);
    }
    // merge both lists by line number, base first on ties
    let ghost bm = base_cs.deep_view();
    let ghost hm = head_cs.deep_view();
    let mut out: Vec<Change> = Vec::new();
    let mut bi: usize = 0;
    let mut hi: usize = 0;
    proof {
        assert(bm.skip(0) =~= bm);
        assert(hm.skip(0) =~= hm);
        assert(out.deep_view() + merge_changes(bm, hm) =~= merge_changes(bm, hm));
    }
    while bi < base_cs.len() || hi < head_cs.len()
        invariant
            0 <= bi <= base_cs@.len(),
            0 <= hi <= head_cs@.len(),
            bm == base_cs.deep_view(),
            hm == head_cs.deep_view(),
            bm.len() == base_cs@.len(),
            hm.len() == head_cs@.len(),
            merge_changes(bm, hm) == out.deep_view() + merge_changes(
                bm.skip(bi as int),
                hm.skip(hi as int),
            ),
        decreases base_cs@.len() - bi + head_cs@.len() - hi,
    {
        let take_base: bool = if hi >= head_cs.len() {
            true
        } else if bi >= base_cs.len() {
            false
        } else {
            base_cs[bi].line_number <= head_cs[hi].line_number
        };
        if take_base {
            proof {
                assert(bm[bi as int] == base_cs@[bi as int]@);
                let rest_b = bm.skip(bi as int);
                let rest_h = hm.skip(hi as int);
                assert(rest_b[0] == bm[bi as int]);
                if hi < head_cs.len() {
                    assert(rest_h[0] == hm[hi as int]);
                    assert(merge_changes(rest_b, rest_h) == seq![bm[bi as int]] + merge_changes(
                        rest_b.skip(1),
                        rest_h,
                    ));
                } else {
                    assert(rest_h.len() == 0);
                    assert(merge_changes(rest_b, rest_h) == rest_b);
                    assert(rest_b =~= seq![bm[bi as int]] + rest_b.skip(1));
                    assert(merge_changes(rest_b.skip(1), rest_h) == rest_b.skip(1));
                }
                assert(rest_b.skip(1) =~= bm.skip(bi + 1));
            }
            let ghost prev = out.deep_view();
            out.push(base_cs[bi].duplicate());
            proof {
                assert(out.deep_view() =~= prev.push(bm[bi as int]));
                assert(prev.push(bm[bi as int]) + merge_changes(bm.skip(bi + 1), hm.skip(hi as int))
                    =~= prev + (seq![bm[bi as int]] + merge_changes(
                    bm.skip(bi + 1),
                    hm.skip(hi as int),
                )));
            }
            bi += 1;
        } else {
            proof {
                assert(hm[hi as int] == head_cs@[hi as int]@);
                let rest_b = bm.skip(bi as int);
                let rest_h = hm.skip(hi as int);
                assert(rest_h[0] == hm[hi as int]);
                if bi < base_cs.len() {
                    assert(rest_b[0] == bm[bi as int]);
                    assert(merge_changes(rest_b, rest_h) == seq![hm[hi as int]] + merge_changes(
                        rest_b,
                        rest_h.skip(1),
                    ));
                } else {
                    assert(rest_b.len() == 0);
                    assert(merge_changes(rest_b, rest_h) == rest_h);
                    assert(rest_h =~= seq![hm[hi as int]] + rest_h.skip(1));
                    assert(merge_changes(rest_b, rest_h.skip(1)) == rest_h.skip(1));
                }
                assert(rest_h.skip(1) =~= hm.skip(hi + 1));
            }
            let ghost prev = out.deep_view();
            out.push(head_cs[hi].duplicate());
            proof {
                assert(out.deep_view() =~= prev.push(hm[hi as int]));
                assert(prev.push(hm[hi as int]) + merge_changes(bm.skip(bi as int), hm.skip(hi + 1))
                    =~= prev + (seq![hm[hi as int]] + merge_changes(
                    bm.skip(bi as int),
                    hm.skip(hi + 1),
                )));
            }
            hi += 1;
        }
    }
    proof {
        reveal(spec_changes);
        assert(bm.skip(bm.len() as int) =~= Seq::<ChangeModel>::empty());
        assert(hm.skip(hm.len() as int) =~= Seq::<ChangeModel>::empty());
        assert(merge_changes(
            Seq::<ChangeModel>::empty(),
            Seq::<ChangeModel>::empty(),
        ) =~= Seq::<ChangeModel>::empty());
        assert(out.deep_view() + Seq::<ChangeModel>::empty() =~= out.deep_view());
        assert(entry@.base == basem && entry@.head == headm);
    }
    out
}

} // verus!
