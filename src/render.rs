//! The table: records of the chosen kinds, one row each, every column as wide
//! as its widest field.

use vstd::prelude::*;

use crate::log::Log;
use crate::record::{display_fields, indicator, RecordModel};
use crate::text::views;

verus! {

/// Whether a record of this kind goes into a table of the given kinds.
pub open spec fn selected(kinds: Seq<char>, r: RecordModel) -> bool {
    kinds.contains(indicator(r))
}

/// The width of column `i` so far, zero where it has not been seen.
pub open spec fn width_at(w: Seq<nat>, i: int) -> nat {
    if 0 <= i < w.len() {
        w[i]
    } else {
        0
    }
}

/// The length of field `i` of a row, zero where the row has no such field.
pub open spec fn field_len_at(f: Seq<Seq<char>>, i: int) -> nat {
    if 0 <= i < f.len() {
        f[i].len()
    } else {
        0
    }
}

pub open spec fn max_nat(a: nat, b: nat) -> nat {
    if a >= b {
        a
    } else {
        b
    }
}

/// Column widths `w` widened to fit the fields of one more row.
pub open spec fn widen(w: Seq<nat>, f: Seq<Seq<char>>) -> Seq<nat> {
    let n = if w.len() >= f.len() {
        w.len()
    } else {
        f.len()
    };
    Seq::new(n, |i: int| max_nat(width_at(w, i), field_len_at(f, i)))
}

/// The column widths of a table of the given kinds over the records: each
/// column as wide as the longest field in it among the selected records.
pub open spec fn column_widths_of(records: Seq<RecordModel>, kinds: Seq<char>) -> Seq<nat>
    decreases records.len(),
{
    if records.len() == 0 {
        Seq::<nat>::empty()
    } else {
        let w = column_widths_of(records.drop_last(), kinds);
        if selected(kinds, records.last()) {
            widen(w, display_fields(records.last()))
        } else {
            w
        }
    }
}

/// `n` spaces, none where `n` is not positive.
pub open spec fn spaces(n: int) -> Seq<char> {
    Seq::new(if n > 0 { n as nat } else { 0 }, |i: int| ' ')
}

/// One cell: a space, the field padded with spaces to the width, a space and
/// the column separator.
pub open spec fn cell(field: Seq<char>, width: nat) -> Seq<char> {
    seq![' '] + field + spaces(width - field.len()) + seq![' ', '│']
}

/// The cells of a row, in order.
pub open spec fn row(fields: Seq<Seq<char>>, w: Seq<nat>) -> Seq<char>
    decreases fields.len(),
{
    if fields.len() == 0 {
        Seq::<char>::empty()
    } else {
        row(fields.drop_last(), w) + cell(fields.last(), width_at(w, fields.len() - 1))
    }
}

/// The rows of the selected records that have at least one field, in order,
/// laid out with widths `w`.
pub open spec fn rows_with(records: Seq<RecordModel>, kinds: Seq<char>, w: Seq<nat>) -> Seq<
    Seq<char>,
>
    decreases records.len(),
{
    if records.len() == 0 {
        Seq::<Seq<char>>::empty()
    } else {
        let prev = rows_with(records.drop_last(), kinds, w);
        let r = records.last();
        if selected(kinds, r) && display_fields(r).len() > 0 {
            prev.push(row(display_fields(r), w))
        } else {
            prev
        }
    }
}

/// The table of the given kinds over the records, one line per row.
pub open spec fn table(records: Seq<RecordModel>, kinds: Seq<char>) -> Seq<Seq<char>> {
    rows_with(records, kinds, column_widths_of(records, kinds))
}

/// Every field of a selected record fits its column of `w`.
pub open spec fn fields_fit(records: Seq<RecordModel>, kinds: Seq<char>, w: Seq<nat>) -> bool {
    &&& forall|j: int|
        0 <= j < records.len() && selected(kinds, records[j]) ==> (#[trigger] display_fields(
            records[j],
        )).len() <= w.len()
    &&& forall|j: int, i: int|
        0 <= j < records.len() && selected(kinds, records[j]) && 0 <= i < display_fields(
            records[j],
        ).len() ==> (#[trigger] display_fields(records[j])[i]).len() <= w[i]
}

/// A field of a selected record fits its column.
pub proof fn lemma_field_fits(records: Seq<RecordModel>, kinds: Seq<char>, j: int, i: int)
    requires
        0 <= j < records.len(),
        selected(kinds, records[j]),
        0 <= i < display_fields(records[j]).len(),
    ensures
        i < column_widths_of(records, kinds).len(),
        display_fields(records[j])[i].len() <= column_widths_of(records, kinds)[i],
    decreases records.len(),
{
    let init = records.drop_last();
    let w0 = column_widths_of(init, kinds);
    let w = column_widths_of(records, kinds);
    let f = display_fields(records.last());
    if j < records.len() - 1 {
        assert(init[j] == records[j]);
        lemma_field_fits(init, kinds, j, i);
        if selected(kinds, records.last()) {
            assert(w[i] == max_nat(width_at(w0, i), field_len_at(f, i)));
        }
    } else {
        assert(w[i] == max_nat(width_at(w0, i), field_len_at(f, i)));
    }
}

/// Every column is as wide as some field of a selected record in it; the
/// result is the index of such a record.
pub proof fn lemma_width_attained(records: Seq<RecordModel>, kinds: Seq<char>, i: int) -> (j: int)
    requires
        0 <= i < column_widths_of(records, kinds).len(),
    ensures
        0 <= j < records.len(),
        selected(kinds, records[j]),
        i < display_fields(records[j]).len(),
        column_widths_of(records, kinds)[i] == display_fields(records[j])[i].len(),
    decreases records.len(),
{
    let init = records.drop_last();
    let w0 = column_widths_of(init, kinds);
    let w = column_widths_of(records, kinds);
    let last = records.len() - 1;
    let f = display_fields(records[last]);
    assert(records[last] == records.last());
    if selected(kinds, records.last()) && i < f.len() && w[i] == f[i].len() {
        last
    } else {
        if selected(kinds, records.last()) {
            assert(w[i] == max_nat(width_at(w0, i), field_len_at(f, i)));
        }
        let j = lemma_width_attained(init, kinds, i);
        assert(records[j] == init[j]);
        j
    }
}

/// Every field of every selected record fits its column. With
/// `lemma_width_attained`, the widths are the column maxima over the selected
/// records.
pub proof fn lemma_column_widths_fit(records: Seq<RecordModel>, kinds: Seq<char>)
    ensures
        fields_fit(records, kinds, column_widths_of(records, kinds)),
{
    let w = column_widths_of(records, kinds);
    assert forall|j: int|
        0 <= j < records.len() && selected(kinds, records[j]) implies (#[trigger] display_fields(
            records[j],
        )).len() <= w.len() by {
        if display_fields(records[j]).len() > 0 {
            lemma_field_fits(records, kinds, j, display_fields(records[j]).len() - 1);
        }
    }
    assert forall|j: int, i: int|
        0 <= j < records.len() && selected(kinds, records[j]) && 0 <= i < display_fields(
            records[j],
        ).len() implies (#[trigger] display_fields(records[j])[i]).len() <= w[i] by {
        lemma_field_fits(records, kinds, j, i);
    }
}

/// A table of kinds that hold neither `#` nor `$`, over records that are all
/// comments or settings, has no line and no column.
pub proof fn lemma_no_rows_without_selected(records: Seq<RecordModel>, kinds: Seq<char>)
    requires
        !kinds.contains('#'),
        !kinds.contains('$'),
        forall|j: int|
            0 <= j < records.len() ==> (#[trigger] records[j] is Comment || records[j] is VarSet),
    ensures
        table(records, kinds).len() == 0,
        column_widths_of(records, kinds).len() == 0,
{
    lemma_unselected_empty(records, kinds);
}

proof fn lemma_unselected_empty(records: Seq<RecordModel>, kinds: Seq<char>)
    requires
        forall|j: int| 0 <= j < records.len() ==> !selected(kinds, #[trigger] records[j]),
    ensures
        column_widths_of(records, kinds).len() == 0,
        forall|w: Seq<nat>| #[trigger] rows_with(records, kinds, w).len() == 0,
    decreases records.len(),
{
    if records.len() > 0 {
        let init = records.drop_last();
        assert forall|j: int| 0 <= j < init.len() implies !selected(kinds, #[trigger] init[j]) by {
            assert(init[j] == records[j]);
        }
        lemma_unselected_empty(init, kinds);
        assert(!selected(kinds, records[records.len() - 1]));
        assert forall|w: Seq<nat>| #[trigger] rows_with(records, kinds, w).len() == 0 by {
            assert(rows_with(init, kinds, w).len() == 0);
        }
    }
}

/// Whether `c` is one of the characters of `kinds`.
pub fn selects(kinds: &str, c: char) -> (r: bool)
    ensures
        r == kinds@.contains(c),
{
    let n = kinds.unicode_len();
    let mut i: usize = 0;
    while i < n
        invariant
            n == kinds@.len(),
            i <= n,
            forall|k: int| 0 <= k < i ==> kinds@[k] != c,
        decreases n - i,
    {
        if kinds.get_char(i) == c {
            return true;
        }
        i = i + 1;
    }
    false
}

/// The width of each column in a table of the given kinds over the log.
pub fn column_widths(log: &Log, kinds: &str) -> (w: Vec<usize>)
    ensures
        w@.len() == column_widths_of(log@, kinds@).len(),
        forall|i: int| 0 <= i < w@.len() ==> w@[i] as nat == column_widths_of(log@, kinds@)[i],
{
    let mut colmaxes: Vec<usize> = Vec::new();
    let mut k: usize = 0;
    while k < log.records.len()
        invariant
            k <= log.records@.len(),
            colmaxes@.len() == column_widths_of(log@.take(k as int), kinds@).len(),
            forall|i: int|
                0 <= i < colmaxes@.len() ==> colmaxes@[i] as nat == column_widths_of(
                    log@.take(k as int),
                    kinds@,
                )[i],
        decreases log.records@.len() - k,
    {
        let record = &log.records[k];
        let ghost w0 = column_widths_of(log@.take(k as int), kinds@);
        proof {
            let p = log@.take(k + 1);
            assert(p.drop_last() =~= log@.take(k as int));
            assert(p.last() == record@);
        }
        if selects(kinds, record.to_char()) {
            let fields = record.display_fields();
            let ghost f = display_fields(record@);
            let ghost w1 = widen(w0, f);
            while colmaxes.len() < fields.len()
                invariant
                    views(fields@) == f,
                    w0.len() <= colmaxes@.len(),
                    colmaxes@.len() == w0.len() || colmaxes@.len() <= fields@.len(),
                    forall|i: int| 0 <= i < colmaxes@.len() ==> colmaxes@[i] as nat == width_at(w0, i),
                decreases fields@.len() - colmaxes@.len(),
            {
                colmaxes.push(0);
            }
            let mut x: usize = 0;
            while x < fields.len()
                invariant
                    views(fields@) == f,
                    w1 == widen(w0, f),
                    x <= fields@.len() <= colmaxes@.len(),
                    colmaxes@.len() == w1.len(),
                    forall|i: int| 0 <= i < x ==> colmaxes@[i] as nat == w1[i],
                    forall|i: int| x <= i < colmaxes@.len() ==> colmaxes@[i] as nat == width_at(w0, i),
                decreases fields@.len() - x,
            {
                let len = fields[x].as_str().unicode_len();
                proof {
                    assert(f[x as int] == fields@[x as int]@);
                    assert(len as nat == field_len_at(f, x as int));
                }
                if len > colmaxes[x] {
                    colmaxes.set(x, len);
                }
                proof {
                    assert(w1[x as int] == max_nat(width_at(w0, x as int), field_len_at(f, x as int)));
                    assert(colmaxes@[x as int] as nat == w1[x as int]);
                }
                x = x + 1;
            }
            proof {
                assert forall|i: int| 0 <= i < colmaxes@.len() implies colmaxes@[i] as nat == w1[i] by {
                    if i >= x {
                        assert(field_len_at(f, i) == 0);
                    }
                }
            }
        }
        k = k + 1;
    }
    proof {
        assert(log@.take(log.records@.len() as int) =~= log@);
    }
    colmaxes
}

/// The widths of a vector of `usize`, as naturals.
pub open spec fn nats(v: Seq<usize>) -> Seq<nat> {
    Seq::new(v.len(), |i: int| v[i] as nat)
}

/// One row of the table: each field padded to the width of its column.
pub fn format_row(fields: &Vec<String>, widths: &Vec<usize>) -> (r: String)
    requires
        fields@.len() <= widths@.len(),
    ensures
        r@ == row(views(fields@), nats(widths@)),
{
    let ghost w = nats(widths@);
    let mut out = String::new();
    let mut x: usize = 0;
    proof {
        reveal_strlit(" ");
        reveal_strlit(" │");
        assert(views(fields@).take(0) =~= Seq::<Seq<char>>::empty());
    }
    while x < fields.len()
        invariant
            x <= fields@.len() <= widths@.len(),
            w == nats(widths@),
            out@ == row(views(fields@).take(x as int), w),
        decreases fields@.len() - x,
    {
        let ghost before = out@;
        let field = fields[x].as_str();
        let width = widths[x];
        out.append(" ");
        out.append(field);
        let len = field.unicode_len();
        let mut p: usize = len;
        proof {
            reveal_strlit(" ");
            assert(spaces(0) =~= Seq::<char>::empty());
            assert(out@ =~= before + seq![' '] + field@ + spaces(p - len));
        }
        while p < width
            invariant
                len <= p,
                p <= width || p == len,
                out@ == before + seq![' '] + field@ + spaces(p - len),
            decreases width - p,
        {
            let ghost mid = out@;
            out.append(" ");
            proof {
                reveal_strlit(" ");
                assert(spaces(p - len).push(' ') =~= spaces(p + 1 - len));
                assert(out@ =~= mid.push(' '));
                assert(out@ =~= before + seq![' '] + field@ + spaces(p + 1 - len));
            }
            p = p + 1;
        }
        let ghost padded = out@;
        out.append(" │");
        proof {
            reveal_strlit(" │");
            assert(" │"@ =~= seq![' ', '│']);
            let f = views(fields@).take(x + 1);
            assert(f.drop_last() =~= views(fields@).take(x as int));
            assert(f.last() == field@);
            assert(width_at(w, x as int) == width as nat);
            assert(spaces(p - len) =~= spaces(width - len));
            assert(out@ =~= padded + seq![' ', '│']);
            assert(out@ =~= before + cell(field@, width as nat));
        }
        x = x + 1;
    }
    proof {
        assert(views(fields@).take(fields@.len() as int) =~= views(fields@));
    }
    out
}

/// The lines of a table of the given kinds over the log: one per selected
/// record with at least one field, in log order, every column as wide as its
/// widest field among the selected records.
pub fn render(log: &Log, kinds: &str) -> (lines: Vec<String>)
    ensures
        views(lines@) == table(log@, kinds@),
{
    let widths = column_widths(log, kinds);
    let ghost w = column_widths_of(log@, kinds@);
    proof {
        lemma_column_widths_fit(log@, kinds@);
        assert(nats(widths@) =~= w);
        assert(views(Seq::<String>::empty()) =~= rows_with(log@.take(0), kinds@, w));
    }
    let mut lines: Vec<String> = Vec::new();
    let mut k: usize = 0;
    while k < log.records.len()
        invariant
            k <= log.records@.len(),
            w == column_widths_of(log@, kinds@),
            nats(widths@) == w,
            fields_fit(log@, kinds@, w),
            views(lines@) == rows_with(log@.take(k as int), kinds@, w),
        decreases log.records@.len() - k,
    {
        let record = &log.records[k];
        proof {
            let p = log@.take(k + 1);
            assert(p.drop_last() =~= log@.take(k as int));
            assert(p.last() == record@);
            assert(log@[k as int] == record@);
        }
        if selects(kinds, record.to_char()) {
            let fields = record.display_fields();
            if fields.len() > 0 {
                proof {
                    assert(display_fields(log@[k as int]).len() <= w.len());
                }
                let line = format_row(&fields, &widths);
                proof {
                    assert(views(lines@.push(line)) =~= views(lines@).push(line@));
                }
                lines.push(line);
            }
        }
        k = k + 1;
    }
    proof {
        assert(log@.take(log.records@.len() as int) =~= log@);
    }
    lines
}

} // verus!
