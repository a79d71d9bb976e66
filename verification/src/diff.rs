//! The diff pipeline's outer operations: turning diff text into the change
//! set, writing accepted line edits back into a file's content, and the
//! advisory messages about a branch that should be rebased.
use vstd::prelude::*;

use crate::model::{EntryModel, FileChangeSet};
use crate::parser::{parse_diff_output, ParseError};
use crate::text::{
    append_bytes, contains_sub, contains_sub_bytes, copy_bytes, join_lines, spec_join, spec_lines,
    split_lines, trim_end, trim_end_bytes, trim_start, trim_start_bytes, DASH, PLUS,
};
use vstd::pervasive::VecAdditionalExecFns;

verus! {

/// One candidate overwrite of a file line: the 1-based line number, the
/// content to write (marker byte still attached), and whether the user
/// accepted it.
pub struct LineEdit {
    pub line_number: usize,
    pub content: Vec<u8>,
    pub accepted: bool,
}

/// Mathematical image of a line edit.
pub ghost struct EditModel {
    pub line_number: nat,
    pub content: Seq<u8>,
    pub accepted: bool,
}

impl View for LineEdit {
    type V = EditModel;

    open spec fn view(&self) -> EditModel {
        EditModel {
            line_number: self.line_number as nat,
            content: self.content@,
            accepted: self.accepted,
        }
    }
}

impl DeepView for LineEdit {
    type V = EditModel;

    open spec fn deep_view(&self) -> EditModel {
        self@
    }
}

/// Drops one leading `-` or `+` marker byte.
pub open spec fn strip_marker(c: Seq<u8>) -> Seq<u8> {
    if c.len() > 0 && (c[0] == DASH || c[0] == PLUS) {
        c.skip(1)
    } else {
        c
    }
}

/// What is written into a file line: the content without its marker byte and
/// without leading whitespace.
pub open spec fn clean_content(c: Seq<u8>) -> Seq<u8> {
    trim_start(strip_marker(c))
}

/// Runtime form of [`clean_content`].
pub fn clean_content_bytes(c: &Vec<u8>) -> (r: Vec<u8>)
    ensures
        r@ == clean_content(c@),
{
    let stripped: Vec<u8> = if c.len() > 0 && (c[0] == DASH || c[0] == PLUS) {
        let mut s: Vec<u8> = Vec::new();
        let mut i: usize = 1;
        while i < c.len()
            invariant
                1 <= i <= c@.len(),
                s@ == c@.subrange(1, i as int),
            decreases c@.len() - i,
        {
            s.push(c[i]);
            proof {
                assert(s@ =~= c@.subrange(1, i + 1));
            }
            i += 1;
        }
        proof {
            assert(s@ =~= c@.skip(1));
        }
        s
    } else {
        copy_bytes(c)
    };
    trim_start_bytes(&stripped)
}

/// The file lines after a sequence of edits is applied in order: each
/// accepted edit whose 1-based line number addresses an existing line
/// overwrites that line with its cleaned content; every other edit does
/// nothing. Lines are never inserted or deleted.
pub open spec fn apply_edits(lines: Seq<Seq<u8>>, edits: Seq<EditModel>) -> Seq<Seq<u8>>
    decreases edits.len(),
{
    if edits.len() == 0 {
        lines
    } else {
        let prev = apply_edits(lines, edits.drop_last());
        let e = edits.last();
        if e.accepted && 1 <= e.line_number && e.line_number <= prev.len() {
            prev.update(e.line_number - 1, clean_content(e.content))
        } else {
            prev
        }
    }
}

/// The cleaned content of the last accepted edit aimed at line `ln`.
pub open spec fn last_write(edits: Seq<EditModel>, ln: nat) -> Option<Seq<u8>>
    decreases edits.len(),
{
    if edits.len() == 0 {
        None
    } else if edits.last().accepted && edits.last().line_number == ln {
        Some(clean_content(edits.last().content))
    } else {
        last_write(edits.drop_last(), ln)
    }
}

/// Applying edits only overwrites: the line count is kept, and each line
/// holds the last accepted edit aimed at it, or its old content.
pub proof fn lemma_apply_edits_pointwise(lines: Seq<Seq<u8>>, edits: Seq<EditModel>)
    ensures
        apply_edits(lines, edits).len() == lines.len(),
        forall|i: int|
            0 <= i < lines.len() ==> #[trigger] apply_edits(lines, edits)[i] == (match last_write(
                edits,
                (i + 1) as nat,
            ) {
                Some(c) => c,
                None => lines[i],
            }),
    decreases edits.len(),
{
    if edits.len() > 0 {
        lemma_apply_edits_pointwise(lines, edits.drop_last());
        let prev = apply_edits(lines, edits.drop_last());
        let e = edits.last();
        let r = apply_edits(lines, edits);
        assert forall|i: int| 0 <= i < lines.len() implies #[trigger] r[i] == (match last_write(
            edits,
            (i + 1) as nat,
        ) {
            Some(c) => c,
            None => lines[i],
        }) by {
            if e.accepted && 1 <= e.line_number && e.line_number <= prev.len() {
                if e.line_number == i + 1 {
                    assert(r[i] == clean_content(e.content));
                } else {
                    assert(r[i] == prev[i]);
                }
            } else {
                assert(r == prev);
                if e.accepted && e.line_number == i + 1 {
                    assert(1 <= e.line_number && e.line_number <= lines.len());
                    assert(false);
                }
            }
        }
    }
}

/// An accepted edit aimed past the end of the file changes nothing: applying
/// any batch of edits that all lie out of range leaves every line as it was.
pub proof fn lemma_out_of_range_edits_change_nothing(lines: Seq<Seq<u8>>, edits: Seq<EditModel>)
    requires
        forall|j: int|
            0 <= j < edits.len() && (#[trigger] edits[j]).accepted ==> edits[j].line_number
                > lines.len(),
    ensures
        apply_edits(lines, edits) == lines,
{
    lemma_apply_edits_pointwise(lines, edits);
    assert forall|i: int| 0 <= i < lines.len() implies #[trigger] last_write(
        edits,
        (i + 1) as nat,
    ) is None by {
        lemma_last_write_none(edits, (i + 1) as nat, lines.len() as nat);
    }
    assert(apply_edits(lines, edits) =~~= lines);
}

proof fn lemma_last_write_none(edits: Seq<EditModel>, ln: nat, bound: nat)
    requires
        ln <= bound,
        forall|j: int|
            0 <= j < edits.len() && (#[trigger] edits[j]).accepted ==> edits[j].line_number
                > bound,
    ensures
        last_write(edits, ln) is None,
    decreases edits.len(),
{
    if edits.len() > 0 {
        assert(edits.last() == edits[edits.len() - 1]);
        assert forall|j: int|
            0 <= j < edits.drop_last().len() && (#[trigger] edits.drop_last()[j]).accepted implies
            edits.drop_last()[j].line_number > bound by {
            assert(edits.drop_last()[j] == edits[j]);
        }
        lemma_last_write_none(edits.drop_last(), ln, bound);
    }
}

/// Two accepted overwrites of different lines land the same file whichever
/// order they are applied in.
pub proof fn lemma_overwrite_order_immaterial(lines: Seq<Seq<u8>>, a: EditModel, b: EditModel)
    requires
        a.line_number != b.line_number,
    ensures
        apply_edits(lines, seq![a, b]) == apply_edits(lines, seq![b, a]),
{
    let ab = seq![a, b];
    let ba = seq![b, a];
    lemma_apply_edits_pointwise(lines, ab);
    lemma_apply_edits_pointwise(lines, ba);
    assert(ab.drop_last() =~= seq![a]);
    assert(ba.drop_last() =~= seq![b]);
    assert(seq![a].drop_last() =~= Seq::<EditModel>::empty());
    assert(seq![b].drop_last() =~= Seq::<EditModel>::empty());
    assert forall|i: int| 0 <= i < lines.len() implies #[trigger] apply_edits(lines, ab)[i]
        == apply_edits(lines, ba)[i] by {
        let ln = (i + 1) as nat;
        assert(ab.last() == b && ba.last() == a);
        assert(seq![a].last() == a && seq![b].last() == b);
        assert(last_write(Seq::<EditModel>::empty(), ln) is None);
        assert(last_write(seq![a], ln) == if a.accepted && a.line_number == ln {
            Some(clean_content(a.content))
        } else {
            None::<Seq<u8>>
        });
        assert(last_write(seq![b], ln) == if b.accepted && b.line_number == ln {
            Some(clean_content(b.content))
        } else {
            None::<Seq<u8>>
        });
        assert(last_write(ab, (i + 1) as nat) == if b.accepted && b.line_number == i + 1 {
            Some(clean_content(b.content))
        } else if a.accepted && a.line_number == i + 1 {
            Some(clean_content(a.content))
        } else {
            None::<Seq<u8>>
        });
        assert(last_write(ba, (i + 1) as nat) == if a.accepted && a.line_number == i + 1 {
            Some(clean_content(a.content))
        } else if b.accepted && b.line_number == i + 1 {
            Some(clean_content(b.content))
        } else {
            None::<Seq<u8>>
        });
    }
    assert(apply_edits(lines, ab) =~~= apply_edits(lines, ba));
}

/// Applies accepted line edits to a file's content: the content is split
/// into lines, each accepted in-range edit overwrites its line with the
/// cleaned content, and the lines are joined back with line feeds. Out of
/// range edits are skipped; nothing is inserted or deleted.
pub fn apply_changes(original: &Vec<u8>, edits: &Vec<LineEdit>) -> (r: Vec<u8>)
    ensures
        r@ == spec_join(apply_edits(spec_lines(original@), edits.deep_view())),
{
    let ghost lines0 = spec_lines(original@);
    let ghost em = edits.deep_view();
    let mut lines = split_lines(original);
    let mut k: usize = 0;
    proof {
        assert(em.take(0) =~= Seq::<EditModel>::empty());
    }
    while k < edits.len()
        invariant
            0 <= k <= edits@.len(),
            em == edits.deep_view(),
            em.len() == edits@.len(),
            forall|j: int| 0 <= j < em.len() ==> em[j] == edits@[j]@,
            lines0 == spec_lines(original@),
            lines.deep_view() == apply_edits(lines0, em.take(k as int)),
        decreases edits@.len() - k,
    {
        let ghost before = lines.deep_view();
        let e = &edits[k];
        if e.accepted && e.line_number >= 1 && e.line_number - 1 < lines.len() {
            let c = clean_content_bytes(&e.content);
            let ghost cm = c@;
            lines.set(e.line_number - 1, c);
            proof {
                assert(lines.deep_view() =~~= before.update(e.line_number - 1, cm));
            }
        }
        proof {
            assert(em.take(k + 1).drop_last() =~= em.take(k as int));
            assert(em.take(k + 1).last() == em[k as int]);
            assert(lines.deep_view() =~~= apply_edits(lines0, em.take(k + 1)));
        }
        k += 1;
    }
    proof {
        assert(em.take(em.len() as int) =~= em);
    }
    join_lines(&lines)
}

/// Parses a diff text into the change set, as [`parse_diff_output`] does.
pub fn get_changes(diff_text: &Vec<u8>) -> (r: Result<FileChangeSet, ParseError>)
    ensures
        match r {
            Ok(fcs) => crate::parser::spec_parse(diff_text@) == Ok::<Seq<EntryModel>, ParseError>(
                fcs@,
            ) && fcs.wf(),
            Err(e) => crate::parser::spec_parse(diff_text@) == Err::<Seq<EntryModel>, ParseError>(
                e,
            ),
        },
{
    parse_diff_output(diff_text)
}

/// The bytes of `Your branch '`.
pub open spec fn msg_your_branch() -> Seq<u8> {
    seq![89u8, 111u8, 117u8, 114u8, 32u8, 98u8, 114u8, 97u8, 110u8, 99u8, 104u8, 32u8, 39u8]
}

#[verifier::rlimit(100)]
fn make_msg_your_branch() -> (v: Vec<u8>)
    ensures
        v@ == msg_your_branch(),
{
    let mut v: Vec<u8> = Vec::new();
    v.push(89u8);
    v.push(111u8);
    v.push(117u8);
    v.push(114u8);
    v.push(32u8);
    v.push(98u8);
    v.push(114u8);
    v.push(97u8);
    v.push(110u8);
    v.push(99u8);
    v.push(104u8);
    v.push(32u8);
    v.push(39u8);
    proof {
        assert(v@ =~= msg_your_branch());
    }
    v
}

/// The bytes of `' is behind '`.
pub open spec fn msg_is_behind() -> Seq<u8> {
    seq![39u8, 32u8, 105u8, 115u8, 32u8, 98u8, 101u8, 104u8, 105u8, 110u8, 100u8, 32u8, 39u8]
}

#[verifier::rlimit(100)]
fn make_msg_is_behind() -> (v: Vec<u8>)
    ensures
        v@ == msg_is_behind(),
{
    let mut v: Vec<u8> = Vec::new();
    v.push(39u8);
    v.push(32u8);
    v.push(105u8);
    v.push(115u8);
    v.push(32u8);
    v.push(98u8);
    v.push(101u8);
    v.push(104u8);
    v.push(105u8);
    v.push(110u8);
    v.push(100u8);
    v.push(32u8);
    v.push(39u8);
    proof {
        assert(v@ =~= msg_is_behind());
    }
    v
}

/// The bytes of `'. A rebase is recommended.`.
pub open spec fn msg_behind_tail() -> Seq<u8> {
    seq![39u8, 46u8, 32u8, 65u8, 32u8, 114u8, 101u8, 98u8, 97u8, 115u8, 101u8, 32u8, 105u8, 115u8, 32u8, 114u8, 101u8, 99u8, 111u8, 109u8, 109u8, 101u8, 110u8, 100u8, 101u8, 100u8, 46u8]
}

#[verifier::rlimit(100)]
fn make_msg_behind_tail() -> (v: Vec<u8>)
    ensures
        v@ == msg_behind_tail(),
{
    let mut v: Vec<u8> = Vec::new();
    v.push(39u8);
    v.push(46u8);
    v.push(32u8);
    v.push(65u8);
    v.push(32u8);
    v.push(114u8);
    v.push(101u8);
    v.push(98u8);
    v.push(97u8);
    v.push(115u8);
    v.push(101u8);
    v.push(32u8);
    v.push(105u8);
    v.push(115u8);
    v.push(32u8);
    v.push(114u8);
    v.push(101u8);
    v.push(99u8);
    v.push(111u8);
    v.push(109u8);
    v.push(109u8);
    v.push(101u8);
    v.push(110u8);
    v.push(100u8);
    v.push(101u8);
    v.push(100u8);
    v.push(46u8);
    proof {
        assert(v@ =~= msg_behind_tail());
    }
    v
}

/// The bytes of `' has diverged from '`.
pub open spec fn msg_diverged_mid() -> Seq<u8> {
    seq![39u8, 32u8, 104u8, 97u8, 115u8, 32u8, 100u8, 105u8, 118u8, 101u8, 114u8, 103u8, 101u8, 100u8, 32u8, 102u8, 114u8, 111u8, 109u8, 32u8, 39u8]
}

#[verifier::rlimit(100)]
fn make_msg_diverged_mid() -> (v: Vec<u8>)
    ensures
        v@ == msg_diverged_mid(),
{
    let mut v: Vec<u8> = Vec::new();
    v.push(39u8);
    v.push(32u8);
    v.push(104u8);
    v.push(97u8);
    v.push(115u8);
    v.push(32u8);
    v.push(100u8);
    v.push(105u8);
    v.push(118u8);
    v.push(101u8);
    v.push(114u8);
    v.push(103u8);
    v.push(101u8);
    v.push(100u8);
    v.push(32u8);
    v.push(102u8);
    v.push(114u8);
    v.push(111u8);
    v.push(109u8);
    v.push(32u8);
    v.push(39u8);
    proof {
        assert(v@ =~= msg_diverged_mid());
    }
    v
}

/// The bytes of the divergence advice tail, starting `'.` and a line break.
pub open spec fn msg_diverged_tail() -> Seq<u8> {
    seq![39u8, 46u8, 10u8, 67u8, 111u8, 110u8, 115u8, 105u8, 100u8, 101u8, 114u8, 32u8, 114u8, 101u8, 98u8, 97u8, 115u8, 105u8, 110u8, 103u8, 32u8, 116u8, 111u8, 32u8, 105u8, 110u8, 116u8, 101u8, 103u8, 114u8, 97u8, 116u8, 101u8, 32u8, 99u8, 104u8, 97u8, 110u8, 103u8, 101u8, 115u8, 32u8, 99u8, 108u8, 101u8, 97u8, 110u8, 108u8, 121u8, 46u8]
}

#[verifier::rlimit(100)]
fn make_msg_diverged_tail() -> (v: Vec<u8>)
    ensures
        v@ == msg_diverged_tail(),
{
    let mut v: Vec<u8> = Vec::new();
    v.push(39u8);
    v.push(46u8);
    v.push(10u8);
    v.push(67u8);
    v.push(111u8);
    v.push(110u8);
    v.push(115u8);
    v.push(105u8);
    v.push(100u8);
    v.push(101u8);
    v.push(114u8);
    v.push(32u8);
    v.push(114u8);
    v.push(101u8);
    v.push(98u8);
    v.push(97u8);
    v.push(115u8);
    v.push(105u8);
    v.push(110u8);
    v.push(103u8);
    v.push(32u8);
    v.push(116u8);
    v.push(111u8);
    v.push(32u8);
    v.push(105u8);
    v.push(110u8);
    v.push(116u8);
    v.push(101u8);
    v.push(103u8);
    v.push(114u8);
    v.push(97u8);
    v.push(116u8);
    v.push(101u8);
    v.push(32u8);
    v.push(99u8);
    v.push(104u8);
    v.push(97u8);
    v.push(110u8);
    v.push(103u8);
    v.push(101u8);
    v.push(115u8);
    v.push(32u8);
    v.push(99u8);
    v.push(108u8);
    v.push(101u8);
    v.push(97u8);
    v.push(110u8);
    v.push(108u8);
    v.push(121u8);
    v.push(46u8);
    proof {
        assert(v@ =~= msg_diverged_tail());
    }
    v
}

/// The bytes of `[behind`.
pub open spec fn behind_marker() -> Seq<u8> {
    seq![91u8, 98u8, 101u8, 104u8, 105u8, 110u8, 100u8]
}

#[verifier::rlimit(100)]
fn make_behind_marker() -> (v: Vec<u8>)
    ensures
        v@ == behind_marker(),
{
    let mut v: Vec<u8> = Vec::new();
    v.push(91u8);
    v.push(98u8);
    v.push(101u8);
    v.push(104u8);
    v.push(105u8);
    v.push(110u8);
    v.push(100u8);
    proof {
        assert(v@ =~= behind_marker());
    }
    v
}

/// The status text reports the branch as behind its upstream.
pub fn status_indicates_behind(status_text: &Vec<u8>) -> (r: bool)
    ensures
        r == contains_sub(status_text@, behind_marker()),
{
    let marker = make_behind_marker();
    contains_sub_bytes(status_text, &marker)
}

/// The text is non-empty once whitespace is trimmed from both ends.
pub fn trimmed_nonempty(v: &Vec<u8>) -> (r: bool)
    ensures
        r == (trim_start(trim_end(v@)).len() > 0),
{
    let t1 = trim_end_bytes(v);
    let t2 = trim_start_bytes(&t1);
    t2.len() > 0
}

/// The advisory shown when the branch is behind its upstream.
pub open spec fn behind_message(branch: Seq<u8>, upstream: Seq<u8>) -> Seq<u8> {
    msg_your_branch() + branch + msg_is_behind() + upstream + msg_behind_tail()
}

/// The advisory shown when the branch and its upstream have diverged.
pub open spec fn diverged_message(branch: Seq<u8>, upstream: Seq<u8>) -> Seq<u8> {
    msg_your_branch() + branch + msg_diverged_mid() + upstream + msg_diverged_tail()
}

/// Decides the rebase advisory from what the repository reports: a branch
/// behind its upstream earns the behind advisory; otherwise a branch with
/// both local and upstream-only commits earns the divergence advisory;
/// otherwise there is nothing to advise.
pub fn rebase_advice(
    branch: &Vec<u8>,
    upstream: &Vec<u8>,
    behind: bool,
    has_local: bool,
    has_remote: bool,
) -> (r: Option<Vec<u8>>)
    ensures
        match r {
            Some(m) => (behind && m@ == behind_message(branch@, upstream@)) || (!behind
                && has_local && has_remote && m@ == diverged_message(branch@, upstream@)),
            None => !behind && !(has_local && has_remote),
        },
{
    if behind {
        let mut m = make_msg_your_branch();
        append_bytes(&mut m, branch);
        let mid = make_msg_is_behind();
        append_bytes(&mut m, &mid);
        append_bytes(&mut m, upstream);
        let tail = make_msg_behind_tail();
        append_bytes(&mut m, &tail);
        proof {
            assert(m@ =~= behind_message(branch@, upstream@));
        }
        Some(m)
    } else if has_local && has_remote {
        let mut m = make_msg_your_branch();
        append_bytes(&mut m, branch);
        let mid = make_msg_diverged_mid();
        append_bytes(&mut m, &mid);
        append_bytes(&mut m, upstream);
        let tail = make_msg_diverged_tail();
        append_bytes(&mut m, &tail);
        proof {
            assert(m@ =~= diverged_message(branch@, upstream@));
        }
        Some(m)
    } else {
        None
    }
}

} // verus!
