//! What the drawn table shows of each row.
use vstd::prelude::*;

use crate::aggregate::NodeRowView;
use crate::render::{all_digits, digits_value, header_spec, render_spec, row_cells, table_text};
use crate::text::{digit_text, digit_value, int_text, is_digit, nat_text};

verus! {

/// The integer a text spells in decimal: digits, with a leading `-` for a negative one.
pub open spec fn decimal_value(s: Seq<char>) -> Option<int> {
    if s.len() > 1 && s[0] == '-' && all_digits(s.drop_first()) {
        Some(-digits_value(s.drop_first()))
    } else if s.len() > 0 && all_digits(s) {
        Some(digits_value(s))
    } else {
        None
    }
}

/// Whether the cells of a row show its usage: a third cell that is the allocation, ` / `
/// and the capacity, each in decimal.
pub open spec fn usage_shown(cells: Seq<Seq<char>>, allocated: int, capacity: int) -> bool {
    &&& cells.len() == 4
    &&& exists|x: Seq<char>, y: Seq<char>|
        cells[2] == x + " / "@ + y && #[trigger] decimal_value(x) == Some(allocated) && #[trigger] decimal_value(y) == Some(capacity)
}

proof fn lemma_digit_text(d: int)
    requires
        0 <= d < 10,
    ensures
        digit_text(d).len() == 1,
        is_digit(digit_text(d)[0]),
        digit_value(digit_text(d)[0]) == d,
{
    reveal_strlit("0");
    reveal_strlit("1");
    reveal_strlit("2");
    reveal_strlit("3");
    reveal_strlit("4");
    reveal_strlit("5");
    reveal_strlit("6");
    reveal_strlit("7");
    reveal_strlit("8");
    reveal_strlit("9");
}

proof fn lemma_nat_text(n: nat)
    ensures
        nat_text(n).len() > 0,
        all_digits(nat_text(n)),
        digits_value(nat_text(n)) == n,
    decreases n,
{
    if n < 10 {
        lemma_digit_text(n as int);
        let t = nat_text(n);
        assert(t.drop_last() =~= Seq::<char>::empty());
        assert(digits_value(Seq::<char>::empty()) == 0);
        assert(t.last() == t[0]);
        assert(digits_value(t) == digits_value(t.drop_last()) * 10 + digit_value(t.last()));
    } else {
        lemma_nat_text(n / 10);
        lemma_digit_text((n % 10) as int);
        let x = nat_text(n / 10);
        let d = digit_text((n % 10) as int);
        let t = nat_text(n);
        assert(t == x + d);
        assert(t.drop_last() =~= x);
        assert(t.last() == d[0]);
        assert forall|i: int| 0 <= i < t.len() implies is_digit(#[trigger] t[i]) by {
            if i < x.len() {
                assert(t[i] == x[i]);
            }
        }
        assert(digits_value(t) == digits_value(t.drop_last()) * 10 + digit_value(t.last()));
        assert(n == (n / 10) * 10 + n % 10) by (nonlinear_arith);
    }
}

proof fn lemma_int_text_reads(v: int)
    ensures
        decimal_value(int_text(v)) == Some(v),
{
    reveal_strlit("-");
    if v < 0 {
        let m = (-v) as nat;
        lemma_nat_text(m);
        let s = int_text(v);
        assert(s == "-"@ + nat_text(m));
        assert(s.drop_first() =~= nat_text(m));
        assert(s[0] == '-');
    } else {
        lemma_nat_text(v as nat);
        let s = int_text(v);
        assert(is_digit(s[0]));
    }
}

/// Every row of the drawn table shows its node's name first and its usage as its
/// allocation, ` / `, and its capacity, each in decimal, whatever its pods: the table is
/// drawn from the header and one list of four cells per row, in order, and each row's
/// third cell reads back as those two numbers.
pub proof fn law_usage_shown(rows: Seq<NodeRowView>, show_devices: bool)
    ensures
        exists|cells: Seq<Seq<Seq<char>>>|
            render_spec(rows, show_devices) == table_text(header_spec(), cells) && cells.len() == rows.len()
                && forall|j: int| 0 <= j < rows.len() ==> usage_shown(#[trigger] cells[j], rows[j].allocated as int, rows[j].capacity as int)
                    && cells[j][0] == rows[j].node_name,
{
    let cells = rows.map_values(|r: NodeRowView| row_cells(r, show_devices));
    assert forall|j: int| 0 <= j < rows.len() implies usage_shown(#[trigger] cells[j], rows[j].allocated as int, rows[j].capacity as int)
        && cells[j][0] == rows[j].node_name by {
        let r = rows[j];
        let x = int_text(r.allocated as int);
        let y = int_text(r.capacity as int);
        lemma_int_text_reads(r.allocated as int);
        lemma_int_text_reads(r.capacity as int);
        assert(cells[j] == row_cells(r, show_devices));
        assert(cells[j][2] == x + " / "@ + y);
        assert(cells[j].len() == 4);
        assert(decimal_value(x) == Some(r.allocated as int));
    }
    assert(render_spec(rows, show_devices) == table_text(header_spec(), cells));
    assert(render_spec(rows, show_devices) == table_text(header_spec(), cells) && cells.len() == rows.len()
        && forall|j: int| 0 <= j < rows.len() ==> usage_shown(#[trigger] cells[j], rows[j].allocated as int, rows[j].capacity as int)
            && cells[j][0] == rows[j].node_name);
}

} // verus!
