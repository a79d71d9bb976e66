//! The interactive state machine: display modes, pane focus, per-file scroll
//! positions, the keyboard transitions over them, and the unified view's
//! line merge. Rendering itself stays outside; this module owns every
//! decision the keys make.
use vstd::prelude::*;

use crate::model::{FileChangeSet, FileEntry, LineRecord, RecModel};
use crate::text::copy_bytes;
use crate::triage::{build_session, FileCommit, spec_commits, TriageSession};

verus! {

/// The two top-level modes: browsing the diff, or triaging changes.
#[derive(Clone, Copy, PartialEq, Eq, Structural, Debug)]
pub enum AppMode {
    Diff,
    Rebase,
}

/// Which pane holds the keyboard focus while browsing.
#[derive(Clone, Copy, PartialEq, Eq, Structural, Debug)]
pub enum Pane {
    FileList,
    DiffContent,
}

/// How the diff is laid out while browsing.
#[derive(Clone, Copy, PartialEq, Eq, Structural, Debug)]
pub enum ViewMode {
    SideBySide,
    Unified,
}

/// The whole interactive state: the parsed change set, the compared branch's
/// name, the files in session order with one scroll offset each, the file
/// cursor, pane focus, view and mode, and the triage session, rebuilt fresh
/// each time triage begins.
pub struct App {
    pub files: FileChangeSet,
    pub branch: Vec<u8>,
    pub file_names: Vec<Vec<u8>>,
    pub scrolls: Vec<u16>,
    pub current_file_idx: usize,
    pub focused_pane: Pane,
    pub view_mode: ViewMode,
    pub app_mode: AppMode,
    pub session: TriageSession,
}

impl App {
    /// The application invariant: the file list mirrors the session's file
    /// order, every file carries a scroll offset, and both cursors stay in
    /// bounds.
    pub open spec fn wf(&self) -> bool {
        &&& self.files.wf()
        &&& self.file_names@.len() == self.files@.len()
        &&& self.scrolls@.len() == self.files@.len()
        &&& self.session.wf()
        &&& self.session.file_order@.len() == self.files@.len()
        &&& (if self.files@.len() == 0 {
            self.current_file_idx == 0
        } else {
            (self.current_file_idx as int) < self.files@.len()
        })
    }

    /// Builds the initial state over a parsed change set: files in session
    /// order, every scroll at the top, the first file selected, the file
    /// list focused, side-by-side browsing.
    pub fn new(files: FileChangeSet, branch: Vec<u8>) -> (app: App)
        requires
            files.wf(),
        ensures
            app.wf(),
            app.files@ == files@,
            app.branch@ == branch@,
            app.file_names.deep_view() == app.session.file_order.deep_view(),
            app.current_file_idx == 0,
            app.focused_pane is FileList,
            app.view_mode is SideBySide,
            app.app_mode is Diff,
            forall|i: int| 0 <= i < app.scrolls@.len() ==> app.scrolls@[i] == 0u16,
    {
        let session = build_session(&files, 0);
        let mut file_names: Vec<Vec<u8>> = Vec::new();
        let mut scrolls: Vec<u16> = Vec::new();
        let mut i: usize = 0;
        while i < session.file_order.len()
            invariant
                0 <= i <= session.file_order@.len(),
                file_names.deep_view() == session.file_order.deep_view().take(i as int),
                scrolls@.len() == i,
                forall|k: int| 0 <= k < i ==> scrolls@[k] == 0u16,
            decreases session.file_order@.len() - i,
        {
            let ghost prev = file_names.deep_view();
            file_names.push(copy_bytes(&session.file_order[i]));
            scrolls.push(0u16);
            proof {
                assert(file_names.deep_view() =~~= prev.push(
                    session.file_order.deep_view()[i as int],
                ));
                assert(prev.push(session.file_order.deep_view()[i as int])
                    =~~= session.file_order.deep_view().take(i + 1));
            }
            i += 1;
        }
        proof {
            assert(session.file_order.deep_view().take(session.file_order.deep_view().len() as int)
                =~~= session.file_order.deep_view());
        }
        App {
            files,
            branch,
            file_names,
            scrolls,
            current_file_idx: 0,
            focused_pane: Pane::FileList,
            view_mode: ViewMode::SideBySide,
            app_mode: AppMode::Diff,
            session,
        }
    }

    /// Escape or quit: while browsing the program should end; while triaging
    /// the session's decisions are discarded and browsing resumes, no file
    /// touched. Returns whether the program should end.
    pub fn on_escape(&mut self) -> (quit: bool)
        requires
            old(self).wf(),
        ensures
            final(self).wf(),
            quit == (old(self).app_mode is Diff),
            final(self).app_mode is Diff,
            final(self).files@ == old(self).files@,
            final(self).file_names == old(self).file_names,
            final(self).scrolls == old(self).scrolls,
            final(self).view_mode == old(self).view_mode,
            final(self).focused_pane == old(self).focused_pane,
            old(self).app_mode is Diff ==> *final(self) == *old(self),
            old(self).app_mode is Rebase ==> final(self).current_file_idx == old(self).session.current_file && final(self).session == old(self).session,
    {
        match self.app_mode {
            AppMode::Diff => true,
            AppMode::Rebase => {
                self.app_mode = AppMode::Diff;
                self.current_file_idx = self.session.current_file;
                false
            },
        }
    }

    /// Begins triage: a fresh session is built over the current change set,
    /// keeping the file cursor; decisions of any earlier session are gone.
    pub fn on_enter_rebase(&mut self)
        requires
            old(self).wf(),
        ensures
            final(self).wf(),
            final(self).files@ == old(self).files@,
            final(self).file_names == old(self).file_names,
            final(self).scrolls == old(self).scrolls,
            final(self).view_mode == old(self).view_mode,
            final(self).focused_pane == old(self).focused_pane,
            final(self).current_file_idx == old(self).current_file_idx,
            old(self).app_mode is Rebase ==> *final(self) == *old(self),
            old(self).app_mode is Diff ==> final(self).app_mode is Rebase && final(self).session.current_change == 0 && final(self).session.current_file
                == old(self).current_file_idx && crate::triage::session_placement(
                final(self).session.file_order.deep_view(),
                final(self).session.changes_by_file.deep_view(),
                old(self).files@,
            ),
    {
        match self.app_mode {
            AppMode::Diff => {
                let session = build_session(&self.files, self.current_file_idx);
                proof {
                    if self.files@.len() > 0 {
                        assert((self.current_file_idx as int) < self.files@.len());
                    }
                }
                self.session = session;
                self.app_mode = AppMode::Rebase;
            },
            AppMode::Rebase => {},
        }
    }

    /// Accepts the current change while triaging; browsing ignores the key.
    pub fn on_accept(&mut self)
        requires
            old(self).wf(),
        ensures
            final(self).wf(),
            final(self).files@ == old(self).files@,
            final(self).app_mode == old(self).app_mode,
            old(self).app_mode is Diff ==> *final(self) == *old(self),
            old(self).app_mode is Rebase ==> TriageSession::decided(
                old(self).session,
                final(self).session,
                crate::pairing::ChangeState::Accepted,
            ),
    {
        match self.app_mode {
            AppMode::Rebase => {
                self.session.accept_current();
            },
            AppMode::Diff => {},
        }
    }

    /// Rejects the current change while triaging; browsing ignores the key.
    pub fn on_reject(&mut self)
        requires
            old(self).wf(),
        ensures
            final(self).wf(),
            final(self).files@ == old(self).files@,
            final(self).app_mode == old(self).app_mode,
            old(self).app_mode is Diff ==> *final(self) == *old(self),
            old(self).app_mode is Rebase ==> TriageSession::decided(
                old(self).session,
                final(self).session,
                crate::pairing::ChangeState::Rejected,
            ),
    {
        match self.app_mode {
            AppMode::Rebase => {
                self.session.reject_current();
            },
            AppMode::Diff => {},
        }
    }

    /// Commits the session: the accepted changes of every file are gathered
    /// for the committer, files without accepted changes left out, and
    /// browsing resumes. While browsing the key does nothing and the batch
    /// is empty.
    pub fn on_commit(&mut self) -> (r: Vec<FileCommit>)
        requires
            old(self).wf(),
        ensures
            final(self).wf(),
            final(self).files@ == old(self).files@,
            final(self).app_mode is Diff,
            old(self).app_mode is Diff ==> *final(self) == *old(self) && r.deep_view()
                == Seq::<crate::triage::CommitModel>::empty(),
            old(self).app_mode is Rebase ==> r.deep_view() == spec_commits(
                old(self).session.file_order.deep_view(),
                old(self).session.changes_by_file.deep_view(),
                old(self).session.changes_by_file.deep_view().len() as int,
            ) && final(self).current_file_idx == old(self).session.current_file && final(self).session == old(self).session,
    {
        match self.app_mode {
            AppMode::Rebase => {
                let r = self.session.commit();
                self.current_file_idx = self.session.current_file;
                self.app_mode = AppMode::Diff;
                r
            },
            AppMode::Diff => {
                let r: Vec<FileCommit> = Vec::new();
                proof {
                    assert(r.deep_view() =~= Seq::<crate::triage::CommitModel>::empty());
                }
                r
            },
        }
    }

    /// Moving down: while browsing it advances the file selection or scrolls
    /// the content, per the focused pane; while triaging it advances the
    /// change cursor.
    pub fn on_down(&mut self)
        requires
            old(self).wf(),
        ensures
            final(self).wf(),
            final(self).files@ == old(self).files@,
            final(self).app_mode == old(self).app_mode,
            final(self).file_names == old(self).file_names,
            old(self).app_mode is Rebase ==> final(self).scrolls == old(self).scrolls && final(self).current_file_idx == old(self).current_file_idx && final(self).session.file_order
                == old(self).session.file_order && final(self).session.changes_by_file == old(self).session.changes_by_file && final(self).session.current_file == old(self).session.current_file && final(self).session.current_change as int == (if old(self).session.current_change + 1 < old(self).session.cur_len() {
                old(self).session.current_change + 1
            } else {
                old(self).session.current_change as int
            }),
            old(self).app_mode is Diff && old(self).focused_pane is FileList ==> final(self).scrolls == old(self).scrolls && final(self).current_file_idx as int == (if old(self).current_file_idx + 1 < old(self).file_names@.len() {
                old(self).current_file_idx + 1
            } else {
                old(self).current_file_idx as int
            }),
            old(self).app_mode is Diff && old(self).focused_pane is DiffContent ==> final(self).current_file_idx == old(self).current_file_idx && (old(self).files@.len() > 0
                ==> final(self).scrolls@ == old(self).scrolls@.update(
                old(self).current_file_idx as int,
                (if old(self).scrolls@[old(self).current_file_idx as int] < u16::MAX {
                    (old(self).scrolls@[old(self).current_file_idx as int] + 1) as u16
                } else {
                    u16::MAX
                }),
            )),
    {
        match self.app_mode {
            AppMode::Diff => {
                match self.focused_pane {
                    Pane::FileList => {
                        let n = self.file_names.len();
                        if self.current_file_idx < n && n - self.current_file_idx > 1 {
                            self.current_file_idx = self.current_file_idx + 1;
                        }
                    },
                    Pane::DiffContent => {
                        if self.current_file_idx < self.scrolls.len() {
                            let s = self.scrolls[self.current_file_idx];
                            let s2 = if s < u16::MAX {
                                s + 1
                            } else {
                                u16::MAX
                            };
                            self.scrolls.set(self.current_file_idx, s2);
                        }
                    },
                }
            },
            AppMode::Rebase => {
                self.session.advance();
            },
        }
    }

    /// Moving up: the mirror of moving down, scrolling and cursors clamped
    /// at zero.
    pub fn on_up(&mut self)
        requires
            old(self).wf(),
        ensures
            final(self).wf(),
            final(self).files@ == old(self).files@,
            final(self).app_mode == old(self).app_mode,
            final(self).file_names == old(self).file_names,
            old(self).app_mode is Rebase ==> final(self).scrolls == old(self).scrolls && final(self).current_file_idx == old(self).current_file_idx && final(self).session.file_order
                == old(self).session.file_order && final(self).session.changes_by_file == old(self).session.changes_by_file && final(self).session.current_file == old(self).session.current_file && final(self).session.current_change as int == (if old(self).session.current_change > 0 {
                old(self).session.current_change - 1
            } else {
                0int
            }),
            old(self).app_mode is Diff && old(self).focused_pane is FileList ==> final(self).scrolls == old(self).scrolls && final(self).current_file_idx as int == (if old(self).current_file_idx > 0 {
                old(self).current_file_idx - 1
            } else {
                0int
            }),
            old(self).app_mode is Diff && old(self).focused_pane is DiffContent ==> final(self).current_file_idx == old(self).current_file_idx && (old(self).files@.len() > 0
                ==> final(self).scrolls@ == old(self).scrolls@.update(
                old(self).current_file_idx as int,
                (if old(self).scrolls@[old(self).current_file_idx as int] > 0 {
                    (old(self).scrolls@[old(self).current_file_idx as int] - 1) as u16
                } else {
                    0u16
                }),
            )),
    {
        match self.app_mode {
            AppMode::Diff => {
                match self.focused_pane {
                    Pane::FileList => {
                        if self.current_file_idx > 0 {
                            self.current_file_idx = self.current_file_idx - 1;
                        }
                    },
                    Pane::DiffContent => {
                        if self.current_file_idx < self.scrolls.len() {
                            let s = self.scrolls[self.current_file_idx];
                            let s2 = if s > 0 {
                                s - 1
                            } else {
                                0
                            };
                            self.scrolls.set(self.current_file_idx, s2);
                        }
                    },
                }
            },
            AppMode::Rebase => {
                self.session.retreat();
            },
        }
    }

    /// Cycles the pane focus while browsing.
    pub fn on_tab(&mut self)
        requires
            old(self).wf(),
        ensures
            final(self).wf(),
            final(self).files@ == old(self).files@,
            old(self).app_mode is Rebase ==> *final(self) == *old(self),
            old(self).app_mode is Diff ==> final(self).focused_pane == (match old(self).focused_pane {
                Pane::FileList => Pane::DiffContent,
                Pane::DiffContent => Pane::FileList,
            }) && final(self).app_mode == old(self).app_mode && final(self).scrolls == old(self).scrolls && final(self).current_file_idx == old(self).current_file_idx,
    {
        match self.app_mode {
            AppMode::Diff => {
                self.focused_pane = match self.focused_pane {
                    Pane::FileList => Pane::DiffContent,
                    Pane::DiffContent => Pane::FileList,
                };
            },
            AppMode::Rebase => {},
        }
    }

    /// Jumps the focus to the file list while browsing.
    pub fn on_focus_files(&mut self)
        requires
            old(self).wf(),
        ensures
            final(self).wf(),
            final(self).files@ == old(self).files@,
            old(self).app_mode is Rebase ==> *final(self) == *old(self),
            old(self).app_mode is Diff ==> final(self).focused_pane is FileList && final(self).scrolls == old(self).scrolls && final(self).current_file_idx == old(self).current_file_idx && final(self).app_mode == old(self).app_mode,
    {
        match self.app_mode {
            AppMode::Diff => {
                self.focused_pane = Pane::FileList;
            },
            AppMode::Rebase => {},
        }
    }

    /// Jumps the focus to the diff content while browsing.
    pub fn on_focus_content(&mut self)
        requires
            old(self).wf(),
        ensures
            final(self).wf(),
            final(self).files@ == old(self).files@,
            old(self).app_mode is Rebase ==> *final(self) == *old(self),
            old(self).app_mode is Diff ==> final(self).focused_pane is DiffContent && final(self).scrolls == old(self).scrolls && final(self).current_file_idx == old(self).current_file_idx && final(self).app_mode == old(self).app_mode,
    {
        match self.app_mode {
            AppMode::Diff => {
                self.focused_pane = Pane::DiffContent;
            },
            AppMode::Rebase => {},
        }
    }

    /// Toggles between the side-by-side and unified layouts while browsing.
    pub fn on_toggle_view(&mut self)
        requires
            old(self).wf(),
        ensures
            final(self).wf(),
            final(self).files@ == old(self).files@,
            old(self).app_mode is Rebase ==> *final(self) == *old(self),
            old(self).app_mode is Diff ==> final(self).view_mode == (match old(self).view_mode {
                ViewMode::SideBySide => ViewMode::Unified,
                ViewMode::Unified => ViewMode::SideBySide,
            }) && final(self).app_mode == old(self).app_mode && final(self).scrolls == old(self).scrolls && final(self).current_file_idx == old(self).current_file_idx,
    {
        match self.app_mode {
            AppMode::Diff => {
                self.view_mode = match self.view_mode {
                    ViewMode::SideBySide => ViewMode::Unified,
                    ViewMode::Unified => ViewMode::SideBySide,
                };
            },
            AppMode::Rebase => {},
        }
    }

    /// Jumps to the next file that has pending changes while triaging,
    /// wrapping around the list; the file selection follows.
    pub fn on_next_file(&mut self)
        requires
            old(self).wf(),
        ensures
            final(self).wf(),
            final(self).files@ == old(self).files@,
            old(self).app_mode is Diff ==> *final(self) == *old(self),
            old(self).app_mode is Rebase ==> final(self).current_file_idx == final(self).session.current_file && final(self).app_mode == old(self).app_mode && final(self).session.file_order == old(self).session.file_order && final(self).session.changes_by_file == old(self).session.changes_by_file && ({
                let ch = old(self).session.changes_by_file.deep_view();
                let n = ch.len() as int;
                let cf = old(self).session.current_file as int;
                match crate::triage::first_nonempty(ch, cf + 1, n) {
                    Some(j) => final(self).session.current_file == j && final(self).session.current_change == 0,
                    None => match crate::triage::first_nonempty(ch, 0, cf) {
                        Some(j) => final(self).session.current_file == j && final(self).session.current_change == 0,
                        None => final(self).session.current_file == old(self).session.current_file
                            && final(self).session.current_change == old(self).session.current_change,
                    },
                }
            }),
    {
        match self.app_mode {
            AppMode::Rebase => {
                self.session.next_file_with_changes();
                self.current_file_idx = self.session.current_file;
                proof {
                    if self.files@.len() == 0 {
                        assert(self.session.file_order@.len() == 0);
                    }
                }
            },
            AppMode::Diff => {},
        }
    }

    /// Jumps to the previous file that has pending changes while triaging,
    /// wrapping around the list; the file selection follows.
    pub fn on_prev_file(&mut self)
        requires
            old(self).wf(),
        ensures
            final(self).wf(),
            final(self).files@ == old(self).files@,
            old(self).app_mode is Diff ==> *final(self) == *old(self),
            old(self).app_mode is Rebase ==> final(self).current_file_idx == final(self).session.current_file && final(self).app_mode == old(self).app_mode && final(self).session.file_order == old(self).session.file_order && final(self).session.changes_by_file == old(self).session.changes_by_file && ({
                let ch = old(self).session.changes_by_file.deep_view();
                let n = ch.len() as int;
                let cf = old(self).session.current_file as int;
                match crate::triage::last_nonempty(ch, 0, cf) {
                    Some(j) => final(self).session.current_file == j && final(self).session.current_change == 0,
                    None => match crate::triage::last_nonempty(ch, cf + 1, n) {
                        Some(j) => final(self).session.current_file == j && final(self).session.current_change == 0,
                        None => final(self).session.current_file == old(self).session.current_file
                            && final(self).session.current_change == old(self).session.current_change,
                    },
                }
            }),
    {
        match self.app_mode {
            AppMode::Rebase => {
                self.session.prev_file_with_changes();
                self.current_file_idx = self.session.current_file;
                proof {
                    if self.files@.len() == 0 {
                        assert(self.session.file_order@.len() == 0);
                    }
                }
            },
            AppMode::Diff => {},
        }
    }
}

/// The unified view's line list: base and head records merged by line
/// number, ascending; where both sides carry the same number, the base
/// record stands for both and the head record is suppressed, so context
/// lines read once and a removal supersedes an addition at its number.
pub open spec fn spec_unified(base: Seq<RecModel>, head: Seq<RecModel>) -> Seq<RecModel>
    decreases base.len() + head.len(),
{
    if base.len() == 0 {
        head
    } else if head.len() == 0 {
        base
    } else if base[0].line_number == head[0].line_number {
        seq![base[0]] + spec_unified(base.skip(1), head.skip(1))
    } else if base[0].line_number < head[0].line_number {
        seq![base[0]] + spec_unified(base.skip(1), head)
    } else {
        seq![head[0]] + spec_unified(base, head.skip(1))
    }
}

/// Merges one file's sides into the unified view's line list.
pub fn unified_lines(entry: &FileEntry) -> (r: Vec<LineRecord>)
    ensures
        r.deep_view() == spec_unified(entry@.base, entry@.head),
{
    let ghost bm = entry.base.deep_view();
    let ghost hm = entry.head.deep_view();
    let mut out: Vec<LineRecord> = Vec::new();
    let mut bi: usize = 0;
    let mut hi: usize = 0;
    proof {
        assert(bm.skip(0) =~= bm);
        assert(hm.skip(0) =~= hm);
        assert(out.deep_view() + spec_unified(bm, hm) =~= spec_unified(bm, hm));
    }
    while bi < entry.base.len() || hi < entry.head.len()
        invariant
            0 <= bi <= entry.base@.len(),
            0 <= hi <= entry.head@.len(),
            bm == entry.base.deep_view(),
            hm == entry.head.deep_view(),
            bm.len() == entry.base@.len(),
            hm.len() == entry.head@.len(),
            spec_unified(bm, hm) == out.deep_view() + spec_unified(
                bm.skip(bi as int),
                hm.skip(hi as int),
            ),
        decreases entry.base@.len() - bi + entry.head@.len() - hi,
    {
        let ghost rb = bm.skip(bi as int);
        let ghost rh = hm.skip(hi as int);
        let take_base: bool = if hi >= entry.head.len() {
            true
        } else if bi >= entry.base.len() {
            false
        } else {
            entry.base[bi].line_number <= entry.head[hi].line_number
        };
        if take_base {
            let both: bool = hi < entry.head.len() && bi < entry.base.len()
                && entry.base[bi].line_number == entry.head[hi].line_number;
            proof {
                assert(bm[bi as int] == entry.base@[bi as int]@);
                assert(rb[0] == bm[bi as int]);
                if hi < entry.head@.len() {
                    assert(hm[hi as int] == entry.head@[hi as int]@);
                    assert(rh[0] == hm[hi as int]);
                    if both {
                        assert(spec_unified(rb, rh) == seq![bm[bi as int]] + spec_unified(
                            rb.skip(1),
                            rh.skip(1),
                        ));
                        assert(rh.skip(1) =~= hm.skip(hi + 1));
                    } else {
                        assert(spec_unified(rb, rh) == seq![bm[bi as int]] + spec_unified(
                            rb.skip(1),
                            rh,
                        ));
                    }
                } else {
                    assert(rh.len() == 0);
                    assert(spec_unified(rb, rh) == rb);
                    assert(rb =~= seq![bm[bi as int]] + rb.skip(1));
                    assert(spec_unified(rb.skip(1), rh) == rb.skip(1));
                }
                assert(rb.skip(1) =~= bm.skip(bi + 1));
            }
            let ghost prev = out.deep_view();
            out.push(entry.base[bi].duplicate());
            proof {
                assert(out.deep_view() =~= prev.push(bm[bi as int]));
                let rest = if both {
                    spec_unified(bm.skip(bi + 1), hm.skip(hi + 1))
                } else {
                    spec_unified(bm.skip(bi + 1), hm.skip(hi as int))
                };
                assert(prev.push(bm[bi as int]) + rest =~= prev + (seq![bm[bi as int]] + rest));
            }
            bi += 1;
            if both {
                hi += 1;
            }
        } else {
            proof {
                assert(hm[hi as int] == entry.head@[hi as int]@);
                assert(rh[0] == hm[hi as int]);
                if bi < entry.base@.len() {
                    assert(bm[bi as int] == entry.base@[bi as int]@);
                    assert(rb[0] == bm[bi as int]);
                    assert(spec_unified(rb, rh) == seq![hm[hi as int]] + spec_unified(
                        rb,
                        rh.skip(1),
                    ));
                } else {
                    assert(rb.len() == 0);
                    assert(spec_unified(rb, rh) == rh);
                    assert(rh =~= seq![hm[hi as int]] + rh.skip(1));
                    assert(spec_unified(rb, rh.skip(1)) == rh.skip(1));
                }
                assert(rh.skip(1) =~= hm.skip(hi + 1));
            }
            let ghost prev = out.deep_view();
            out.push(entry.head[hi].duplicate());
            proof {
                assert(out.deep_view() =~= prev.push(hm[hi as int]));
                assert(prev.push(hm[hi as int]) + spec_unified(bm.skip(bi as int), hm.skip(hi + 1))
                    =~= prev + (seq![hm[hi as int]] + spec_unified(
                    bm.skip(bi as int),
                    hm.skip(hi + 1),
                )));
            }
            hi += 1;
        }
    }
    proof {
        assert(bm.skip(bm.len() as int) =~= Seq::<RecModel>::empty());
        assert(hm.skip(hm.len() as int) =~= Seq::<RecModel>::empty());
        assert(spec_unified(Seq::<RecModel>::empty(), Seq::<RecModel>::empty())
            =~= Seq::<RecModel>::empty());
        assert(out.deep_view() + Seq::<RecModel>::empty() =~= out.deep_view());
    }
    out
}

} // verus!
