//! The tabular summary of a change set: one header row per file, then both
//! sides' lines paired row by row, each cell carrying its rendered text and
//! colour. What draws the table stays outside.
use vstd::prelude::*;

use crate::model::{EntryModel, FileChangeSet, RecModel};
use crate::text::{append_bytes, copy_bytes, dec_digits, format_usize, SP};
use crate::{spec_line_color, LineColor};

verus! {

/// One cell of the summary table: rendered text and its colour.
pub struct TableCell {
    pub text: Vec<u8>,
    pub color: LineColor,
}

/// Mathematical image of a cell.
pub ghost struct CellModel {
    pub text: Seq<u8>,
    pub color: LineColor,
}

impl View for TableCell {
    type V = CellModel;

    open spec fn view(&self) -> CellModel {
        CellModel { text: self.text@, color: self.color }
    }
}

impl DeepView for TableCell {
    type V = CellModel;

    open spec fn deep_view(&self) -> CellModel {
        self@
    }
}

/// One row of the summary table: the file column and one cell per side.
pub struct TableRow {
    pub file: Vec<u8>,
    pub base: TableCell,
    pub head: TableCell,
}

/// Mathematical image of a row.
pub ghost struct RowModel {
    pub file: Seq<u8>,
    pub base: CellModel,
    pub head: CellModel,
}

impl View for TableRow {
    type V = RowModel;

    open spec fn view(&self) -> RowModel {
        RowModel { file: self.file@, base: self.base@, head: self.head@ }
    }
}

impl DeepView for TableRow {
    type V = RowModel;

    open spec fn deep_view(&self) -> RowModel {
        self@
    }
}

/// The cell a record renders to: `<number> <text>`, coloured by its marker.
pub open spec fn cell_for(r: RecModel) -> CellModel {
    CellModel {
        text: dec_digits(r.line_number) + seq![SP] + r.text,
        color: spec_line_color(r.text),
    }
}

/// An empty filler cell.
pub open spec fn empty_cell() -> CellModel {
    CellModel { text: Seq::empty(), color: LineColor::White }
}

/// The cell for position `i` of one side: a rendered record, or a filler
/// past the side's end.
pub open spec fn side_cell(rs: Seq<RecModel>, i: int) -> CellModel {
    if 0 <= i < rs.len() {
        cell_for(rs[i])
    } else {
        empty_cell()
    }
}

/// How many line rows one file takes: the longer side decides.
pub open spec fn entry_height(e: EntryModel) -> int {
    if e.base.len() >= e.head.len() {
        e.base.len() as int
    } else {
        e.head.len() as int
    }
}

/// The line rows of one file from position `i` on.
pub open spec fn entry_data_rows(e: EntryModel, i: int) -> Seq<RowModel>
    decreases entry_height(e) - i,
{
    if i < 0 || i >= entry_height(e) {
        Seq::empty()
    } else {
        seq![
            RowModel { file: Seq::empty(), base: side_cell(e.base, i), head: side_cell(e.head, i) },
        ] + entry_data_rows(e, i + 1)
    }
}

/// One file's block: a header row naming the file, then its line rows.
pub open spec fn entry_rows(e: EntryModel) -> Seq<RowModel> {
    seq![RowModel { file: e.path, base: empty_cell(), head: empty_cell() }] + entry_data_rows(e, 0)
}

/// The whole table: each file's block in change-set order.
pub open spec fn spec_rows(m: Seq<EntryModel>) -> Seq<RowModel>
    decreases m.len(),
{
    if m.len() == 0 {
        Seq::empty()
    } else {
        spec_rows(m.drop_last()) + entry_rows(m.last())
    }
}

/// Renders one record's cell.
fn make_cell(r: &crate::model::LineRecord) -> (c: TableCell)
    ensures
        c@ == cell_for(r@),
{
    let mut text = format_usize(r.line_number);
    text.push(SP);
    append_bytes(&mut text, &r.text);
    let color = crate::line_color(&r.text);
    proof {
        assert(text@ =~= dec_digits(r@.line_number) + seq![SP] + r@.text);
    }
    TableCell { text, color }
}

/// An empty filler cell at runtime.
fn make_empty_cell() -> (c: TableCell)
    ensures
        c@ == empty_cell(),
{
    let text: Vec<u8> = Vec::new();
    proof {
        assert(text@ =~= Seq::<u8>::empty());
    }
    TableCell { text, color: LineColor::White }
}

/// Lays the change set out as the summary table's rows: per file a header
/// row holding the path, then one row per line position with the base and
/// head cells side by side, filled up to the longer side.
pub fn populate_table(fcs: &FileChangeSet) -> (r: Vec<TableRow>)
    ensures
        r.deep_view() == spec_rows(fcs@),
{
    let ghost fm = fcs@;
    let mut out: Vec<TableRow> = Vec::new();
    let mut k: usize = 0;
    proof {
        assert(out.deep_view() =~= spec_rows(fm.take(0)));
    }
    while k < fcs.entries.len()
        invariant
            0 <= k <= fcs.entries@.len(),
            fm == fcs@,
            fm.len() == fcs.entries@.len(),
            out.deep_view() == spec_rows(fm.take(k as int)),
        decreases fcs.entries@.len() - k,
    {
        let e = &fcs.entries[k];
        let ghost em = fm[k as int];
        proof {
            assert(em == fcs.entries@[k as int]@);
            assert(fm.take(k + 1).drop_last() =~= fm.take(k as int));
            assert(fm.take(k + 1).last() == em);
        }
        let ghost before = out.deep_view();
        // the header row naming the file
        let header = TableRow {
            file: copy_bytes(&e.path),
            base: make_empty_cell(),
            head: make_empty_cell(),
        };
        let ghost hdr = header@;
        out.push(header);
        proof {
            assert(out.deep_view() =~= before.push(hdr));
            assert(hdr == RowModel { file: em.path, base: empty_cell(), head: empty_cell() });
            assert(before.push(hdr) + entry_data_rows(em, 0) =~= before + (seq![hdr]
                + entry_data_rows(em, 0)));
        }
        let height = if e.base.len() >= e.head.len() {
            e.base.len()
        } else {
            e.head.len()
        };
        proof {
            assert(entry_height(em) == height as int);
        }
        let mut i: usize = 0;
        while i < height
            invariant
                0 <= i <= height,
                fm == fcs@,
                fm.len() == fcs.entries@.len(),
                0 <= k < fcs.entries@.len(),
                em == fcs.entries@[k as int]@,
                em == fm[k as int],
                before == spec_rows(fm.take(k as int)),
                height as int == entry_height(em),
                em.base.len() == fcs.entries@[k as int].base@.len(),
                em.head.len() == fcs.entries@[k as int].head@.len(),
                out.deep_view() + entry_data_rows(em, i as int) == before + entry_rows(em),
            decreases height - i,
        {
            let e2 = &fcs.entries[k];
            let base_cell = if i < e2.base.len() {
                proof {
                    assert(em.base[i as int] == e2.base@[i as int]@);
                }
                make_cell(&e2.base[i])
            } else {
                make_empty_cell()
            };
            let head_cell = if i < e2.head.len() {
                proof {
                    assert(em.head[i as int] == e2.head@[i as int]@);
                }
                make_cell(&e2.head[i])
            } else {
                make_empty_cell()
            };
            let empty_name: Vec<u8> = Vec::new();
            proof {
                assert(empty_name@ =~= Seq::<u8>::empty());
            }
            let row = TableRow { file: empty_name, base: base_cell, head: head_cell };
            proof {
                assert(row@ == RowModel {
                    file: Seq::<u8>::empty(),
                    base: side_cell(em.base, i as int),
                    head: side_cell(em.head, i as int),
                });
            }
            let ghost prev = out.deep_view();
            out.push(row);
            proof {
                let rm = RowModel {
                    file: Seq::<u8>::empty(),
                    base: side_cell(em.base, i as int),
                    head: side_cell(em.head, i as int),
                };
                assert(out.deep_view() =~= prev.push(rm));
                assert(entry_data_rows(em, i as int) == seq![rm] + entry_data_rows(em, i + 1));
                assert(prev.push(rm) + entry_data_rows(em, i + 1) =~= prev + (seq![rm]
                    + entry_data_rows(em, i + 1)));
            }
            i += 1;
        }
        proof {
            assert(entry_data_rows(em, height as int) =~= Seq::<RowModel>::empty());
            assert(out.deep_view() + Seq::<RowModel>::empty() =~= out.deep_view());
            assert(fm.take(k + 1).drop_last() =~= fm.take(k as int));
            assert(fm.take(k + 1).last() == em);
            assert(spec_rows(fm.take(k + 1)) == spec_rows(fm.take(k as int)) + entry_rows(em));
        }
        k += 1;
    }
    proof {
        assert(fm.take(fm.len() as int) =~= fm);
    }
    out
}

} // verus!
