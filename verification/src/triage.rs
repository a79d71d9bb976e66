//! The triage session: files in lexicographic order, their change lists, a
//! cursor over file and change, tri-state decisions, and the gathering of
//! accepted changes for the committer.
use vstd::prelude::*;

use crate::diff::EditModel;
use crate::diff::LineEdit;
use crate::model::{FileChangeSet, EntryModel};
use crate::pairing::{pair_changes, spec_changes, Change, ChangeModel, ChangeState};
use crate::text::{copy_bytes, lex_leq, lex_lt, lex_lt_bytes, lemma_lex_total, lemma_lex_trans,
    PLUS};

verus! {

/// How many entries of a flag sequence are set.
pub open spec fn count_true(s: Seq<bool>) -> int
    decreases s.len(),
{
    if s.len() == 0 {
        0
    } else {
        count_true(s.drop_last()) + (if s.last() {
            1int
        } else {
            0int
        })
    }
}

proof fn lemma_count_true_le(s: Seq<bool>)
    ensures
        0 <= count_true(s) <= s.len(),
    decreases s.len(),
{
    if s.len() > 0 {
        lemma_count_true_le(s.drop_last());
    }
}

proof fn lemma_count_true_update(s: Seq<bool>, i: int)
    requires
        0 <= i < s.len(),
        !s[i],
    ensures
        count_true(s.update(i, true)) == count_true(s) + 1,
    decreases s.len(),
{
    if i == s.len() - 1 {
        assert(s.update(i, true).drop_last() =~= s.drop_last());
    } else {
        assert(s.update(i, true).drop_last() =~= s.drop_last().update(i, true));
        assert(s.drop_last()[i] == s[i]);
        lemma_count_true_update(s.drop_last(), i);
    }
}

proof fn lemma_count_true_all(s: Seq<bool>)
    requires
        count_true(s) == s.len(),
    ensures
        forall|i: int| 0 <= i < s.len() ==> s[i],
    decreases s.len(),
{
    if s.len() > 0 {
        lemma_count_true_le(s.drop_last());
        assert(s.last());
        lemma_count_true_all(s.drop_last());
        assert forall|i: int| 0 <= i < s.len() implies s[i] by {
            if i < s.len() - 1 {
                assert(s.drop_last()[i] == s[i]);
            }
        }
    }
}

/// Finds the entry with the lexicographically least path among the unused
/// entries.
fn find_min_unused(fcs: &FileChangeSet, used: &Vec<bool>) -> (r: Option<usize>)
    requires
        used@.len() == fcs@.len(),
    ensures
        match r {
            Some(j) => 0 <= j < fcs@.len() && !used@[j as int] && forall|j2: int|
                0 <= j2 < fcs@.len() && !used@[j2] ==> lex_leq(
                    fcs@[j as int].path,
                    (#[trigger] fcs@[j2]).path,
                ),
            None => forall|j2: int| 0 <= j2 < fcs@.len() ==> used@[j2],
        },
{
    let mut best: Option<usize> = None;
    let mut j: usize = 0;
    while j < fcs.entries.len()
        invariant
            0 <= j <= fcs@.len(),
            fcs@.len() == fcs.entries@.len(),
            used@.len() == fcs@.len(),
            match best {
                Some(b) => 0 <= b < j && !used@[b as int] && forall|j2: int|
                    0 <= j2 < j && !used@[j2] ==> lex_leq(
                        fcs@[b as int].path,
                        (#[trigger] fcs@[j2]).path,
                    ),
                None => forall|j2: int| 0 <= j2 < j ==> used@[j2],
            },
        decreases fcs@.len() - j,
    {
        proof {
            assert(fcs@[j as int] == fcs.entries@[j as int]@);
        }
        if !used[j] {
            match best {
                None => {
                    best = Some(j);
                    proof {
                        lemma_lex_total(fcs@[j as int].path, fcs@[j as int].path);
                    }
                },
                Some(b) => {
                    proof {
                        assert(fcs@[b as int] == fcs.entries@[b as int]@);
                    }
                    if lex_lt_bytes(&fcs.entries[j].path, &fcs.entries[b].path) {
                        let ghost old_b = b as int;
                        best = Some(j);
                        proof {
                            assert forall|j2: int|
                                0 <= j2 < j + 1 && !used@[j2] implies lex_leq(
                                fcs@[j as int].path,
                                (#[trigger] fcs@[j2]).path,
                            ) by {
                                if j2 < j {
                                    lemma_lex_trans(
                                        fcs@[j as int].path,
                                        fcs@[old_b].path,
                                        fcs@[j2].path,
                                    );
                                } else {
                                    lemma_lex_total(fcs@[j as int].path, fcs@[j as int].path);
                                }
                            }
                        }
                    } else {
                        proof {
                            lemma_lex_total(fcs@[j as int].path, fcs@[b as int].path);
                            assert forall|j2: int|
                                0 <= j2 < j + 1 && !used@[j2] implies lex_leq(
                                fcs@[b as int].path,
                                (#[trigger] fcs@[j2]).path,
                            ) by {
                                if j2 == j {
                                    if fcs@[b as int].path == fcs@[j as int].path {
                                        lemma_lex_total(fcs@[b as int].path, fcs@[j as int].path);
                                    } else {
                                        assert(lex_leq(fcs@[b as int].path, fcs@[j as int].path));
                                    }
                                }
                            }
                        }
                    }
                },
            }
        }
        j += 1;
    }
    best
}

/// A strictly ascending path list.
pub open spec fn paths_strictly_sorted(ps: Seq<Seq<u8>>) -> bool {
    forall|i: int, j: int| 0 <= i < j < ps.len() ==> lex_lt(ps[i], ps[j])
}

/// One file's gathered accepted edits, ready for the committer.
pub struct FileCommit {
    pub path: Vec<u8>,
    pub edits: Vec<LineEdit>,
}

/// Mathematical image of a gathered commit.
pub ghost struct CommitModel {
    pub path: Seq<u8>,
    pub edits: Seq<EditModel>,
}

impl View for FileCommit {
    type V = CommitModel;

    open spec fn view(&self) -> CommitModel {
        CommitModel { path: self.path@, edits: self.edits.deep_view() }
    }
}

impl DeepView for FileCommit {
    type V = CommitModel;

    open spec fn deep_view(&self) -> CommitModel {
        self@
    }
}

/// Drops one leading `+` marker, as a paired added line carries one.
pub open spec fn strip_plus(t: Seq<u8>) -> Seq<u8> {
    if t.len() > 0 && t[0] == PLUS {
        t.skip(1)
    } else {
        t
    }
}

/// The content an accepted change writes: for a paired base-side change the
/// incoming added line, its marker dropped here; otherwise the change's own
/// content, whose marker the committer drops.
pub open spec fn resolved_content(c: ChangeModel) -> Seq<u8> {
    if c.is_base && c.paired_content is Some {
        strip_plus(c.paired_content->0)
    } else {
        c.content
    }
}

/// The accepted changes of one file as line edits, in order.
pub open spec fn pending_edits(cs: Seq<ChangeModel>) -> Seq<EditModel>
    decreases cs.len(),
{
    if cs.len() == 0 {
        Seq::empty()
    } else {
        let prev = pending_edits(cs.drop_last());
        if cs.last().state is Accepted {
            prev.push(
                EditModel {
                    line_number: cs.last().line_number,
                    content: resolved_content(cs.last()),
                    accepted: true,
                },
            )
        } else {
            prev
        }
    }
}

/// The commit batch of a session: one entry per file that has at least one
/// accepted change, in file order; files without accepted changes are not
/// touched.
pub open spec fn spec_commits(
    order: Seq<Seq<u8>>,
    changes: Seq<Seq<ChangeModel>>,
    n: int,
) -> Seq<CommitModel>
    decreases n,
{
    if n <= 0 {
        Seq::empty()
    } else {
        let prev = spec_commits(order, changes, n - 1);
        if pending_edits(changes[n - 1]).len() > 0 {
            prev.push(CommitModel { path: order[n - 1], edits: pending_edits(changes[n - 1]) })
        } else {
            prev
        }
    }
}

/// Rejecting everything commits nothing: a session in which every change is
/// rejected yields an empty commit batch, so no file is touched.
pub proof fn lemma_rejected_commit_empty(
    order: Seq<Seq<u8>>,
    changes: Seq<Seq<ChangeModel>>,
    n: int,
)
    requires
        0 <= n <= changes.len(),
        forall|k: int, c: int|
            0 <= k < changes.len() && 0 <= c < (#[trigger] changes[k]).len() ==> (#[trigger] changes[k][c]).state is Rejected,
    ensures
        spec_commits(order, changes, n) == Seq::<CommitModel>::empty(),
    decreases n,
{
    if n > 0 {
        lemma_rejected_commit_empty(order, changes, n - 1);
        lemma_pending_no_accepted(changes[n - 1]);
    }
}

/// A change list without accepted changes pends no edits.
pub proof fn lemma_pending_no_accepted(cs: Seq<ChangeModel>)
    requires
        forall|c: int| 0 <= c < cs.len() ==> !((#[trigger] cs[c]).state is Accepted),
    ensures
        pending_edits(cs) == Seq::<EditModel>::empty(),
    decreases cs.len(),
{
    if cs.len() > 0 {
        assert(cs.last() == cs[cs.len() - 1]);
        assert forall|c: int| 0 <= c < cs.drop_last().len() implies !((#[trigger] cs.drop_last()[c]).state
            is Accepted) by {
            assert(cs.drop_last()[c] == cs[c]);
        }
        lemma_pending_no_accepted(cs.drop_last());
    }
}

/// The first file in `[lo, hi)` whose change list is non-empty.
pub open spec fn first_nonempty(ch: Seq<Seq<ChangeModel>>, lo: int, hi: int) -> Option<int>
    decreases hi - lo,
{
    if lo >= hi {
        None
    } else if ch[lo].len() > 0 {
        Some(lo)
    } else {
        first_nonempty(ch, lo + 1, hi)
    }
}

/// The last file in `[lo, hi)` whose change list is non-empty.
pub open spec fn last_nonempty(ch: Seq<Seq<ChangeModel>>, lo: int, hi: int) -> Option<int>
    decreases hi - lo,
{
    if lo >= hi {
        None
    } else if ch[hi - 1].len() > 0 {
        Some(hi - 1)
    } else {
        last_nonempty(ch, lo, hi - 1)
    }
}

/// The triage session: files in lexicographic path order, one change list
/// per file, and the cursor over them. Decisions live here until the session
/// is committed or discarded.
pub struct TriageSession {
    pub file_order: Vec<Vec<u8>>,
    pub changes_by_file: Vec<Vec<Change>>,
    pub current_file: usize,
    pub current_change: usize,
}

impl TriageSession {
    /// The number of changes of the current file.
    pub open spec fn cur_len(&self) -> int {
        if (self.current_file as int) < self.changes_by_file.deep_view().len() {
            self.changes_by_file.deep_view()[self.current_file as int].len() as int
        } else {
            0
        }
    }

    /// The session's invariant: one change list per file, and the cursor in
    /// bounds (or at zero where a list is empty).
    pub open spec fn wf(&self) -> bool {
        &&& self.file_order@.len() == self.changes_by_file@.len()
        &&& (if self.file_order@.len() == 0 {
            self.current_file == 0
        } else {
            (self.current_file as int) < self.file_order@.len()
        })
        &&& (if self.cur_len() == 0 {
            self.current_change == 0
        } else {
            (self.current_change as int) < self.cur_len()
        })
    }

    /// Moves the change cursor one change forward; at the last change it
    /// stays put.
    pub fn advance(&mut self)
        requires
            old(self).wf(),
        ensures
            final(self).wf(),
            final(self).file_order == old(self).file_order,
            final(self).changes_by_file == old(self).changes_by_file,
            final(self).current_file == old(self).current_file,
            final(self).current_change as int == (if old(self).current_change + 1 < old(
                self,
            ).cur_len() {
                old(self).current_change + 1
            } else {
                old(self).current_change as int
            }),
    {
        if self.current_file < self.changes_by_file.len() {
            let n = self.changes_by_file[self.current_file].len();
            proof {
                assert(self.changes_by_file.deep_view()[self.current_file as int].len()
                    == self.changes_by_file@[self.current_file as int]@.len());
            }
            if n > 0 && self.current_change + 1 < n {
                self.current_change = self.current_change + 1;
            }
        }
    }

    /// Moves the change cursor one change back; at the first change it stays
    /// put.
    pub fn retreat(&mut self)
        requires
            old(self).wf(),
        ensures
            final(self).wf(),
            final(self).file_order == old(self).file_order,
            final(self).changes_by_file == old(self).changes_by_file,
            final(self).current_file == old(self).current_file,
            final(self).current_change as int == (if old(self).current_change > 0 {
                old(self).current_change - 1
            } else {
                0int
            }),
    {
        if self.current_change > 0 {
            self.current_change = self.current_change - 1;
        }
    }

    /// What deciding the current change does: its state becomes `st`, every
    /// other change stays, and the cursor auto-advances unless it stands at
    /// the last change. With no change under the cursor nothing happens.
    pub open spec fn decided(old_s: TriageSession, new_s: TriageSession, st: ChangeState) -> bool {
        &&& new_s.file_order == old_s.file_order
        &&& new_s.current_file == old_s.current_file
        &&& if old_s.cur_len() > 0 {
            let cf = old_s.current_file as int;
            let cc = old_s.current_change as int;
            let oldc = old_s.changes_by_file.deep_view()[cf][cc];
            &&& new_s.changes_by_file.deep_view() == old_s.changes_by_file.deep_view().update(
                cf,
                old_s.changes_by_file.deep_view()[cf].update(
                    cc,
                    ChangeModel { state: st, ..oldc },
                ),
            )
            &&& new_s.current_change as int == (if cc + 1 < old_s.cur_len() {
                cc + 1
            } else {
                cc
            })
        } else {
            &&& new_s.changes_by_file == old_s.changes_by_file
            &&& new_s.current_change == old_s.current_change
        }
    }

    fn decide(&mut self, st: ChangeState)
        requires
            old(self).wf(),
        ensures
            final(self).wf(),
            Self::decided(*old(self), *final(self), st),
    {
        if self.current_file < self.changes_by_file.len() {
            let n = self.changes_by_file[self.current_file].len();
            proof {
                assert(old(self).changes_by_file.deep_view()[old(self).current_file as int].len()
                    == old(self).changes_by_file@[old(self).current_file as int]@.len());
            }
            if self.current_change < n {
                let ghost cf = self.current_file as int;
                let ghost cc = self.current_change as int;
                let inner = &mut self.changes_by_file[self.current_file];
                let c = &mut inner[self.current_change];
                c.state = st;
                proof {
                    let oldv = old(self).changes_by_file.deep_view();
                    assert(self.changes_by_file.deep_view() =~~= oldv.update(
                        cf,
                        oldv[cf].update(cc, ChangeModel { state: st, ..oldv[cf][cc] }),
                    ));
                    assert(self.changes_by_file.deep_view()[cf].len()
                        == old(self).changes_by_file.deep_view()[cf].len());
                }
                if self.current_change + 1 < n {
                    self.current_change = self.current_change + 1;
                }
            }
        }
    }

    /// Accepts the current change and auto-advances.
    pub fn accept_current(&mut self)
        requires
            old(self).wf(),
        ensures
            final(self).wf(),
            Self::decided(*old(self), *final(self), ChangeState::Accepted),
    {
        self.decide(ChangeState::Accepted);
    }

    /// Rejects the current change and auto-advances.
    pub fn reject_current(&mut self)
        requires
            old(self).wf(),
        ensures
            final(self).wf(),
            Self::decided(*old(self), *final(self), ChangeState::Rejected),
    {
        self.decide(ChangeState::Rejected);
    }

    /// Moves to the next file with changes, wrapping past the end of the
    /// list, and resets the change cursor; with none to find it stays put.
    pub fn next_file_with_changes(&mut self)
        requires
            old(self).wf(),
        ensures
            final(self).wf(),
            final(self).file_order == old(self).file_order,
            final(self).changes_by_file == old(self).changes_by_file,
            ({
                let ch = old(self).changes_by_file.deep_view();
                let n = ch.len() as int;
                let cf = old(self).current_file as int;
                match first_nonempty(ch, cf + 1, n) {
                    Some(j) => final(self).current_file == j && final(self).current_change == 0,
                    None => match first_nonempty(ch, 0, cf) {
                        Some(j) => final(self).current_file == j && final(self).current_change
                            == 0,
                        None => final(self).current_file == old(self).current_file
                            && final(self).current_change == old(self).current_change,
                    },
                }
            }),
    {
        let ghost ch = self.changes_by_file.deep_view();
        let n = self.changes_by_file.len();
        let mut j = if self.current_file < n {
            self.current_file + 1
        } else {
            n
        };
        while j < n
            invariant
                old(self).wf(),
                0 <= j <= n,
                j < n ==> j >= old(self).current_file + 1,
                n == ch.len(),
                *self == *old(self),
                ch == self.changes_by_file.deep_view(),
                first_nonempty(ch, old(self).current_file + 1, n as int) == first_nonempty(
                    ch,
                    j as int,
                    n as int,
                ),
            decreases n - j,
        {
            proof {
                assert(ch[j as int] == self.changes_by_file@[j as int].deep_view());
            }
            if self.changes_by_file[j].len() > 0 {
                proof {
                    assert(first_nonempty(ch, j as int, n as int) == Some(j as int));
                }
                self.current_file = j;
                self.current_change = 0;
                return ;
            }
            j += 1;
        }
        // wrap to the front, stopping before the current file
        let mut k: usize = 0;
        while k < self.current_file
            invariant
                old(self).wf(),
                0 <= k <= self.current_file,
                n == ch.len(),
                *self == *old(self),
                ch == self.changes_by_file.deep_view(),
                first_nonempty(ch, old(self).current_file + 1, n as int) is None,
                first_nonempty(ch, 0, old(self).current_file as int) == first_nonempty(
                    ch,
                    k as int,
                    old(self).current_file as int,
                ),
            decreases self.current_file - k,
        {
            proof {
                assert(ch[k as int] == self.changes_by_file@[k as int].deep_view());
            }
            if self.changes_by_file[k].len() > 0 {
                proof {
                    assert(first_nonempty(ch, k as int, old(self).current_file as int) == Some(
                        k as int,
                    ));
                }
                self.current_file = k;
                self.current_change = 0;
                return ;
            }
            k += 1;
        }
    }

    /// Moves to the previous file with changes, wrapping past the front of
    /// the list, and resets the change cursor; with none to find it stays
    /// put.
    pub fn prev_file_with_changes(&mut self)
        requires
            old(self).wf(),
        ensures
            final(self).wf(),
            final(self).file_order == old(self).file_order,
            final(self).changes_by_file == old(self).changes_by_file,
            ({
                let ch = old(self).changes_by_file.deep_view();
                let n = ch.len() as int;
                let cf = old(self).current_file as int;
                match last_nonempty(ch, 0, cf) {
                    Some(j) => final(self).current_file == j && final(self).current_change == 0,
                    None => match last_nonempty(ch, cf + 1, n) {
                        Some(j) => final(self).current_file == j && final(self).current_change
                            == 0,
                        None => final(self).current_file == old(self).current_file
                            && final(self).current_change == old(self).current_change,
                    },
                }
            }),
    {
        let ghost ch = self.changes_by_file.deep_view();
        let n = self.changes_by_file.len();
        let mut j = self.current_file;
        while j > 0
            invariant
                old(self).wf(),
                0 <= j <= old(self).current_file,
                n == ch.len(),
                *self == *old(self),
                ch == self.changes_by_file.deep_view(),
                last_nonempty(ch, 0, old(self).current_file as int) == last_nonempty(
                    ch,
                    0,
                    j as int,
                ),
            decreases j,
        {
            proof {
                assert(ch[j - 1] == self.changes_by_file@[j - 1].deep_view());
            }
            if self.changes_by_file[j - 1].len() > 0 {
                proof {
                    assert(last_nonempty(ch, 0, j as int) == Some(j - 1));
                }
                self.current_file = j - 1;
                self.current_change = 0;
                return ;
            }
            j -= 1;
        }
        // wrap to the back, stopping after the current file
        let mut k: usize = n;
        while k > self.current_file + 1
            invariant
                old(self).wf(),
                0 <= k <= n,
                k < n ==> k >= old(self).current_file + 1,
                n == ch.len(),
                *self == *old(self),
                ch == self.changes_by_file.deep_view(),
                last_nonempty(ch, 0, old(self).current_file as int) is None,
                last_nonempty(ch, old(self).current_file + 1, n as int) == last_nonempty(
                    ch,
                    old(self).current_file + 1,
                    k as int,
                ),
            decreases k,
        {
            proof {
                assert(ch[k - 1] == self.changes_by_file@[k - 1].deep_view());
            }
            if self.changes_by_file[k - 1].len() > 0 {
                proof {
                    assert(last_nonempty(ch, old(self).current_file + 1, k as int) == Some(k - 1));
                }
                self.current_file = k - 1;
                self.current_change = 0;
                return ;
            }
            k -= 1;
        }
    }

    /// Gathers the accepted changes of every file into the commit batch:
    /// files without accepted changes are left out.
    pub fn commit(&self) -> (r: Vec<FileCommit>)
        requires
            self.wf(),
        ensures
            r.deep_view() == spec_commits(
                self.file_order.deep_view(),
                self.changes_by_file.deep_view(),
                self.changes_by_file.deep_view().len() as int,
            ),
    {
        let ghost order = self.file_order.deep_view();
        let ghost ch = self.changes_by_file.deep_view();
        let mut out: Vec<FileCommit> = Vec::new();
        let mut k: usize = 0;
        proof {
            assert(out.deep_view() =~= spec_commits(order, ch, 0));
        }
        while k < self.changes_by_file.len()
            invariant
                0 <= k <= self.changes_by_file@.len(),
                order == self.file_order.deep_view(),
                ch == self.changes_by_file.deep_view(),
                ch.len() == self.changes_by_file@.len(),
                order.len() == ch.len(),
                self.wf(),
                out.deep_view() == spec_commits(order, ch, k as int),
            decreases self.changes_by_file@.len() - k,
        {
            let cs = &self.changes_by_file[k];
            let ghost csm = ch[k as int];
            proof {
                assert(csm == self.changes_by_file@[k as int].deep_view());
            }
            let mut edits: Vec<LineEdit> = Vec::new();
            let mut c: usize = 0;
            proof {
                assert(edits.deep_view() =~= pending_edits(csm.take(0)));
            }
            while c < cs.len()
                invariant
                    0 <= c <= cs@.len(),
                    csm == cs.deep_view(),
                    csm.len() == cs@.len(),
                    edits.deep_view() == pending_edits(csm.take(c as int)),
                decreases cs@.len() - c,
            {
                let chg = &cs[c];
                proof {
                    assert(csm[c as int] == cs@[c as int]@);
                    assert(csm.take(c + 1).drop_last() =~= csm.take(c as int));
                    assert(csm.take(c + 1).last() == csm[c as int]);
                }
                let accepted = match chg.state {
                    ChangeState::Accepted => true,
                    _ => false,
                };
                if accepted {
                    let content: Vec<u8> = if chg.is_base {
                        match &chg.paired_content {
                            Some(p) => {
                                // the incoming added line supersedes the deletion
                                if p.len() > 0 && p[0] == PLUS {
                                    let mut s: Vec<u8> = Vec::new();
                                    let mut i: usize = 1;
                                    while i < p.len()
                                        invariant
                                            1 <= i <= p@.len(),
                                            s@ == p@.subrange(1, i as int),
                                        decreases p@.len() - i,
                                    {
                                        s.push(p[i]);
                                        proof {
                                            assert(s@ =~= p@.subrange(1, i + 1));
                                        }
                                        i += 1;
                                    }
                                    proof {
                                        assert(s@ =~= p@.skip(1));
                                    }
                                    s
                                } else {
                                    copy_bytes(p)
                                }
                            },
                            None => copy_bytes(&chg.content),
                        }
                    } else {
                        copy_bytes(&chg.content)
                    };
                    proof {
                        assert(content@ == resolved_content(csm[c as int]));
                    }
                    let ghost prev = edits.deep_view();
                    edits.push(
                        LineEdit { line_number: chg.line_number, content, accepted: true },
                    );
                    proof {
                        assert(edits.deep_view() =~= prev.push(
                            EditModel {
                                line_number: csm[c as int].line_number,
                                content: resolved_content(csm[c as int]),
                                accepted: true,
                            },
                        ));
                    }
                }
                c += 1;
            }
            proof {
                assert(csm.take(csm.len() as int) =~= csm);
            }
            if edits.len() > 0 {
                proof {
                    assert(order[k as int] == self.file_order@[k as int]@);
                }
                let path = copy_bytes(&self.file_order[k]);
                let ghost prev = out.deep_view();
                out.push(FileCommit { path, edits });
                proof {
                    assert(out.deep_view() =~= prev.push(
                        CommitModel { path: order[k as int], edits: pending_edits(ch[k as int]) },
                    ));
                }
            } else {
                proof {
                    assert(pending_edits(ch[k as int]).len() == 0);
                }
            }
            k += 1;
        }
        out
    }
}

/// Every listed file is one of the change set's entries and carries that
/// entry's change list.
#[verifier::opaque]
pub open spec fn session_placement(
    order: Seq<Seq<u8>>,
    changes: Seq<Seq<ChangeModel>>,
    fm: Seq<EntryModel>,
) -> bool {
    forall|i: int|
        #![trigger order[i]]
        0 <= i < order.len() ==> exists|j: int|
            0 <= j < fm.len() && order[i] == (#[trigger] fm[j]).path && 0 <= i < changes.len()
                && changes[i] == spec_changes(fm[j])
}

/// Every marked entry's path stands somewhere in the file list.
#[verifier::opaque]
pub open spec fn session_covers(order: Seq<Seq<u8>>, fm: Seq<EntryModel>, used: Seq<bool>) -> bool {
    forall|j: int|
        #![trigger used[j]]
        0 <= j < fm.len() && 0 <= j < used.len() && used[j] ==> exists|i: int|
            0 <= i < order.len() && (#[trigger] order[i]) == fm[j].path
}

/// Every entry's path stands somewhere in the file list.
pub open spec fn session_complete(order: Seq<Seq<u8>>, fm: Seq<EntryModel>) -> bool {
    forall|j: int|
        #![trigger fm[j]]
        0 <= j < fm.len() ==> order.contains(fm[j].path)
}

/// The picking frontier: every marked entry's path lies lexicographically
/// before every unmarked entry's path, and every listed path lies before
/// every unmarked entry's path.
#[verifier::opaque]
pub open spec fn pick_frontier(
    order: Seq<Seq<u8>>,
    fm: Seq<EntryModel>,
    used: Seq<bool>,
) -> bool {
    &&& forall|j1: int, j2: int|
        0 <= j1 < fm.len() && 0 <= j2 < fm.len() && j1 < used.len() && j2 < used.len() && used[j1]
            && !used[j2] ==> lex_lt((#[trigger] fm[j1]).path, (#[trigger] fm[j2]).path)
    &&& forall|i: int, j2: int|
        0 <= i < order.len() && 0 <= j2 < fm.len() && j2 < used.len() && !used[j2] ==> lex_lt(
            #[trigger] order[i],
            (#[trigger] fm[j2]).path,
        )
}

proof fn lemma_pick_step(
    fm: Seq<EntryModel>,
    prev_used: Seq<bool>,
    used: Seq<bool>,
    prev_order: Seq<Seq<u8>>,
    order: Seq<Seq<u8>>,
    prev_changes: Seq<Seq<ChangeModel>>,
    changes: Seq<Seq<ChangeModel>>,
    j: int,
)
    requires
        prev_used.len() == fm.len(),
        0 <= j < fm.len(),
        prev_order.len() == prev_changes.len(),
        !prev_used[j],
        forall|j2: int|
            0 <= j2 < fm.len() && !prev_used[j2] ==> lex_leq(fm[j].path, (#[trigger] fm[j2]).path),
        used == prev_used.update(j, true),
        order == prev_order.push(fm[j].path),
        changes == prev_changes.push(spec_changes(fm[j])),
        forall|i1: int, i2: int| 0 <= i1 < i2 < fm.len() ==> fm[i1].path != fm[i2].path,
        session_placement(prev_order, prev_changes, fm),
        session_covers(prev_order, fm, prev_used),
        pick_frontier(prev_order, fm, prev_used),
        paths_strictly_sorted(prev_order),
    ensures
        session_placement(order, changes, fm),
        session_covers(order, fm, used),
        pick_frontier(order, fm, used),
        paths_strictly_sorted(order),
{
    let n = fm.len() as int;
    let k = prev_order.len() as int;
    assert(pick_frontier(order, fm, used)) by {
        reveal(pick_frontier);
        assert forall|j1: int, j2: int|
            0 <= j1 < n && 0 <= j2 < n && j1 < used.len() && j2 < used.len() && used[j1]
                && !used[j2] implies lex_lt((#[trigger] fm[j1]).path, (#[trigger] fm[j2]).path) by {
            if j1 == j {
                assert(lex_leq(fm[j].path, fm[j2].path));
                if fm[j].path == fm[j2].path {
                    assert(false);
                }
            } else {
                assert(prev_used[j1] && !prev_used[j2]);
            }
        }
        assert forall|i: int, j2: int|
            0 <= i < order.len() && 0 <= j2 < n && j2 < used.len() && !used[j2] implies lex_lt(
            #[trigger] order[i],
            (#[trigger] fm[j2]).path,
        ) by {
            if i < k {
                assert(order[i] == prev_order[i]);
                assert(!prev_used[j2]);
            } else {
                assert(order[i] == fm[j].path);
                assert(lex_leq(fm[j].path, fm[j2].path));
                if fm[j].path == fm[j2].path {
                    assert(false);
                }
            }
        }
    }
    assert(paths_strictly_sorted(order)) by {
        reveal(pick_frontier);
        assert forall|i1: int, i2: int| 0 <= i1 < i2 < order.len() implies lex_lt(
            order[i1],
            order[i2],
        ) by {
            if i2 == k {
                assert(order[i1] == prev_order[i1]);
                assert(!prev_used[j]);
            } else {
                assert(order[i1] == prev_order[i1]);
                assert(order[i2] == prev_order[i2]);
            }
        }
    }
    assert(session_covers(order, fm, used)) by {
        reveal(session_covers);
        assert forall|j2: int|
            0 <= j2 < n && 0 <= j2 < used.len() && used[j2] implies exists|i: int|
            0 <= i < order.len() && (#[trigger] order[i]) == fm[j2].path by {
            if j2 == j {
                assert(order[k] == fm[j].path);
            } else {
                assert(prev_used[j2]);
                let i = choose|i: int|
                    0 <= i < prev_order.len() && (#[trigger] prev_order[i]) == fm[j2].path;
                assert(order[i] == fm[j2].path);
            }
        }
    }
    assert(session_placement(order, changes, fm)) by {
        reveal(session_placement);
        assert forall|i: int|
            #![trigger order[i]]
            0 <= i < order.len() implies exists|j2: int|
            0 <= j2 < n && order[i] == (#[trigger] fm[j2]).path && 0 <= i < changes.len()
                && changes[i] == spec_changes(fm[j2]) by {
            if i < k {
                let j2 = choose|j2: int|
                    0 <= j2 < n && prev_order[i] == (#[trigger] fm[j2]).path && 0 <= i
                        < prev_changes.len() && prev_changes[i] == spec_changes(fm[j2]);
                assert(order[i] == fm[j2].path);
                assert(changes[i] == spec_changes(fm[j2]));
            } else {
                assert(order[k] == fm[j].path);
                assert(changes[k] == spec_changes(fm[j]));
            }
        }
    }
}

proof fn lemma_session_finish(order: Seq<Seq<u8>>, fm: Seq<EntryModel>, used: Seq<bool>)
    requires
        used.len() == fm.len(),
        forall|j: int| 0 <= j < used.len() ==> used[j],
        session_covers(order, fm, used),
    ensures
        session_complete(order, fm),
{
    reveal(session_covers);
    assert forall|j: int|
        #![trigger fm[j]]
        0 <= j < fm.len() implies order.contains(fm[j].path) by {
        assert(used[j]);
        let i = choose|i: int| 0 <= i < order.len() && (#[trigger] order[i]) == fm[j].path;
        assert(order[i] == fm[j].path);
    }
}

/// Builds a fresh session from the change set: files in lexicographic path
/// order, each with its change list from the pairing engine, the change
/// cursor at the first change and the file cursor kept where the caller
/// stood, clamped into range.
#[verifier::rlimit(100)]
pub fn build_session(fcs: &FileChangeSet, start_file: usize) -> (s: TriageSession)
    requires
        fcs.wf(),
    ensures
        s.wf(),
        s.file_order@.len() == fcs@.len(),
        s.changes_by_file@.len() == fcs@.len(),
        paths_strictly_sorted(s.file_order.deep_view()),
        session_placement(s.file_order.deep_view(), s.changes_by_file.deep_view(), fcs@),
        session_complete(s.file_order.deep_view(), fcs@),
        s.current_file as int == (if (start_file as int) < fcs@.len() {
            start_file as int
        } else {
            0int
        }),
        s.current_change == 0,
{
    let n = fcs.entries.len();
    let mut used: Vec<bool> = Vec::new();
    let mut z: usize = 0;
    while z < n
        invariant
            0 <= z <= n,
            used@.len() == z,
            forall|i: int| 0 <= i < z ==> !used@[i],
        decreases n - z,
    {
        used.push(false);
        z += 1;
    }
    let ghost fm = fcs@;
    let mut order: Vec<Vec<u8>> = Vec::new();
    let mut changes: Vec<Vec<Change>> = Vec::new();
    let mut k: usize = 0;
    proof {
        assert(count_true(used@) == 0) by {
            lemma_count_all_false(used@);
        }
        assert(session_placement(order.deep_view(), changes.deep_view(), fm)) by {
            reveal(session_placement);
        }
        assert(session_covers(order.deep_view(), fm, used@)) by {
            reveal(session_covers);
        }
        assert(pick_frontier(order.deep_view(), fm, used@)) by {
            reveal(pick_frontier);
        }
    }
    while k < n
        invariant
            0 <= k <= n,
            n == fm.len(),
            fm == fcs@,
            fcs.wf(),
            fcs.entries@.len() == n,
            used@.len() == n,
            order@.len() == k,
            changes@.len() == k,
            count_true(used@) == k as int,
            session_placement(order.deep_view(), changes.deep_view(), fm),
            session_covers(order.deep_view(), fm, used@),
            pick_frontier(order.deep_view(), fm, used@),
            paths_strictly_sorted(order.deep_view()),
        decreases n - k,
    {
        let found = find_min_unused(fcs, &used);
        let j = match found {
            Some(j) => j,
            None => {
                // unreachable: fewer entries are marked than exist
                proof {
                    lemma_count_all_true(used@);
                    assert(false);
                }
                0
            },
        };
        proof {
            assert(fm[j as int] == fcs.entries@[j as int]@);
            assert(pick_frontier(order.deep_view(), fm, used@));
        }
        let path = copy_bytes(&fcs.entries[j].path);
        let cs = pair_changes(&fcs.entries[j]);
        let ghost prev_order = order.deep_view();
        let ghost prev_changes = changes.deep_view();
        let ghost prev_used = used@;
        order.push(path);
        changes.push(cs);
        used.set(j, true);
        proof {
            lemma_count_true_update(prev_used, j as int);
            assert(order.deep_view() =~~= prev_order.push(fm[j as int].path));
            assert(changes.deep_view() =~= prev_changes.push(spec_changes(fm[j as int])));
            lemma_pick_step(
                fm,
                prev_used,
                used@,
                prev_order,
                order.deep_view(),
                prev_changes,
                changes.deep_view(),
                j as int,
            );
        }
        k += 1;
    }
    proof {
        lemma_count_true_all(used@);
        lemma_session_finish(order.deep_view(), fm, used@);
    }
    let ghost order_dv = order.deep_view();
    let ghost changes_dv = changes.deep_view();
    let current_file = if start_file < n {
        start_file
    } else {
        0
    };
    let s = TriageSession { file_order: order, changes_by_file: changes, current_file,
        current_change: 0 };
    proof {
        assert(s.file_order@.len() == s.changes_by_file@.len());
        assert(s.file_order.deep_view() == order_dv);
        assert(s.changes_by_file.deep_view() == changes_dv);
    }
    s
}

proof fn lemma_count_all_true(s: Seq<bool>)

    requires
        forall|i: int| 0 <= i < s.len() ==> s[i],
    ensures
        count_true(s) == s.len(),
    decreases s.len(),
{
    if s.len() > 0 {
        assert(s.last());
        assert forall|i: int| 0 <= i < s.drop_last().len() implies s.drop_last()[i] by {
            assert(s.drop_last()[i] == s[i]);
        }
        lemma_count_all_true(s.drop_last());
    }
}

proof fn lemma_count_all_false(s: Seq<bool>)
    requires
        forall|i: int| 0 <= i < s.len() ==> !s[i],
    ensures
        count_true(s) == 0,
    decreases s.len(),
{
    if s.len() > 0 {
        assert(!s.last());
        assert forall|i: int| 0 <= i < s.drop_last().len() implies !s.drop_last()[i] by {
            assert(s.drop_last()[i] == s[i]);
        }
        lemma_count_all_false(s.drop_last());
    }
}

} // verus!
