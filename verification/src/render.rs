//! The table that shows the rows: one line group per node, its pods one per line.
use vstd::prelude::*;

use crate::aggregate::{NodeRow, NodeRowView, PodEntry, PodEntryView};
use crate::sorting::{sort_by_key, sort_seq, views, SortKey};
use crate::text::{
    ascii_digit, digit_value, int_text, is_digit, join, join_strings, lemma_seq_lt_total,
    lemma_seq_lt_transitive, push_int, seq_lt, str_lt,
};
use comfy_table::TableComponent as Part;

verus! {

/// Whether every character of `s` is an ASCII digit.
pub open spec fn all_digits(s: Seq<char>) -> bool {
    forall|i: int| 0 <= i < s.len() ==> is_digit(#[trigger] s[i])
}

/// Number of leading characters of `s` that are not ASCII digits.
pub open spec fn leading_non_digits(s: Seq<char>) -> nat
    decreases s.len(),
{
    if s.len() > 0 && !is_digit(s[0]) {
        1 + leading_non_digits(s.drop_first())
    } else {
        0
    }
}

/// A device name shortened to its digits: the part after the leading non-digits, when
/// that part is nonempty and all digits; else the whole name.
pub open spec fn short_device_spec(name: Seq<char>) -> Seq<char> {
    let rest = name.skip(leading_non_digits(name) as int);
    if rest.len() > 0 && all_digits(rest) {
        rest
    } else {
        name
    }
}

proof fn lemma_leading_non_digits(s: Seq<char>, i: int)
    requires
        0 <= i <= s.len(),
        forall|j: int| 0 <= j < i ==> !is_digit(#[trigger] s[j]),
        i == s.len() || is_digit(s[i]),
    ensures
        leading_non_digits(s) == i,
    decreases i,
{
    if i > 0 {
        let t = s.drop_first();
        assert forall|j: int| 0 <= j < i - 1 implies !is_digit(#[trigger] t[j]) by {
            assert(t[j] == s[j + 1]);
        }
        lemma_leading_non_digits(t, i - 1);
    }
}

/// `name` shortened to its trailing digits when it is letters followed by digits
/// (`npu0` gives `0`); any other name is kept whole.
pub fn short_device_name(name: &str) -> (r: &str)
    ensures
        r@ == short_device_spec(name@),
{
    let n = name.unicode_len();
    let mut start: usize = 0;
    while start < n && !ascii_digit(name.get_char(start))
        invariant
            n == name@.len(),
            start <= n,
            forall|j: int| 0 <= j < start ==> !is_digit(#[trigger] name@[j]),
        decreases n - start,
    {
        start += 1;
    }
    proof {
        lemma_leading_non_digits(name@, start as int);
    }
    let mut k = start;
    while k < n && ascii_digit(name.get_char(k))
        invariant
            n == name@.len(),
            start <= k <= n,
            forall|j: int| start <= j < k ==> is_digit(#[trigger] name@[j]),
        decreases n - k,
    {
        k += 1;
    }
    let ghost rest = name@.skip(start as int);
    if start < n && k == n {
        assert forall|i: int| 0 <= i < rest.len() implies is_digit(#[trigger] rest[i]) by {
            assert(rest[i] == name@[i + start]);
        }
        name.substring_char(start, n)
    } else {
        if k < n {
            assert(rest[k - start] == name@[k as int]);
        }
        name
    }
}

/// The value of a string of decimal digits.
pub open spec fn digits_value(s: Seq<char>) -> int
    decreases s.len(),
{
    if s.len() == 0 {
        0
    } else {
        digits_value(s.drop_last()) * 10 + digit_value(s.last())
    }
}

/// The number a device name's short form reads as, when it is a decimal `u64`.
pub open spec fn device_number(name: Seq<char>) -> Option<u64> {
    let s = short_device_spec(name);
    if s.len() > 0 && all_digits(s) && digits_value(s) <= u64::MAX {
        Some(digits_value(s) as u64)
    } else {
        None
    }
}

/// Where a device name stands among others: 0 when its short form is not a number and
/// sorts as text before every number (empty, or starting below `0`), 1 when it is a
/// number, 2 otherwise.
pub open spec fn device_class(name: Seq<char>) -> int {
    let s = short_device_spec(name);
    if device_number(name) is Some {
        1
    } else if s.len() == 0 || (s[0] as int) < 48 {
        0
    } else {
        2
    }
}

/// The order of device names: by class, then by number among numbers and by the short
/// form as text among the others. It is the order `u64` numbers and text comparison give
/// the short forms, made total: a number before a non-number whose short form starts
/// with a digit (as `1a`), where comparing numbers as numbers and the rest as text
/// would go round in a circle (`2` < `10` < `1a` < `2`).
pub open spec fn device_le(a: Seq<char>, b: Seq<char>) -> bool {
    if device_class(a) != device_class(b) {
        device_class(a) < device_class(b)
    } else if device_class(a) == 1 {
        device_number(a)->0 <= device_number(b)->0
    } else {
        !seq_lt(short_device_spec(b), short_device_spec(a))
    }
}

proof fn lemma_digits_value_grows(s: Seq<char>, i: int)
    requires
        0 <= i <= s.len(),
        all_digits(s),
    ensures
        digits_value(s.take(i)) <= digits_value(s),
        0 <= digits_value(s.take(i)),
    decreases s.len() - i,
{
    if i < s.len() {
        lemma_digits_value_grows(s, i + 1);
        let t = s.take(i + 1);
        assert(t.drop_last() =~= s.take(i));
        assert(t.last() == s[i]);
        assert(is_digit(s[i]));
    } else {
        assert(s.take(i) =~= s);
        lemma_digits_nonneg(s);
    }
}

proof fn lemma_digits_nonneg(s: Seq<char>)
    requires
        all_digits(s),
    ensures
        0 <= digits_value(s),
    decreases s.len(),
{
    if s.len() > 0 {
        let d = s.drop_last();
        assert forall|i: int| 0 <= i < d.len() implies is_digit(#[trigger] d[i]) by {
            assert(d[i] == s[i]);
        }
        lemma_digits_nonneg(d);
        assert(is_digit(s[s.len() - 1]));
    }
}

/// The number a device name's short form reads as, when it is a decimal `u64`.
fn device_number_of(name: &str) -> (r: Option<u64>)
    ensures
        r == device_number(name@),
{
    let s = short_device_name(name);
    let n = s.unicode_len();
    if n == 0 {
        return None;
    }
    let mut val: u64 = 0;
    let mut i: usize = 0;
    assert(s@.take(0) =~= Seq::<char>::empty());
    while i < n
        invariant
            n == s@.len(),
            s@ == short_device_spec(name@),
            i <= n,
            val == digits_value(s@.take(i as int)),
            forall|j: int| 0 <= j < i ==> is_digit(#[trigger] s@[j]),
        decreases n - i,
    {
        let c = s.get_char(i);
        if !ascii_digit(c) {
            return None;
        }
        let d: u64 = (c as u32 - 48) as u64;
        assert(s@.take(i + 1).drop_last() =~= s@.take(i as int));
        assert(s@.take(i + 1).last() == c);
        let next = match val.checked_mul(10) {
            None => None,
            Some(m) => m.checked_add(d),
        };
        match next {
            None => {
                proof {
                    if all_digits(s@) {
                        lemma_digits_value_grows(s@, i + 1);
                    }
                }
                return None;
            },
            Some(v) => {
                val = v;
            },
        }
        i += 1;
    }
    assert(s@.take(n as int) =~= s@);
    Some(val)
}

/// Where a device name stands among others (`device_class`).
fn device_class_of(name: &str) -> (r: u8)
    ensures
        r as int == device_class(name@),
{
    if device_number_of(name).is_some() {
        return 1;
    }
    let s = short_device_name(name);
    if s.unicode_len() == 0 || (s.get_char(0) as u32) < 48 {
        0
    } else {
        2
    }
}

/// A device name, ordered by `device_le` for display.
pub struct DeviceName(pub String);

impl View for DeviceName {
    type V = Seq<char>;

    open spec fn view(&self) -> Seq<char> {
        self.0@
    }
}

impl SortKey for DeviceName {
    open spec fn key_le(a: Seq<char>, b: Seq<char>) -> bool {
        device_le(a, b)
    }

    proof fn lemma_key_le_total(a: Seq<char>, b: Seq<char>) {
        lemma_seq_lt_total(short_device_spec(a), short_device_spec(b));
    }

    proof fn lemma_key_le_trans(a: Seq<char>, b: Seq<char>, c: Seq<char>) {
        let sa = short_device_spec(a);
        let sb = short_device_spec(b);
        let sc = short_device_spec(c);
        lemma_seq_lt_total(sa, sb);
        lemma_seq_lt_total(sb, sc);
        lemma_seq_lt_total(sa, sc);
        if seq_lt(sc, sa) && !seq_lt(sb, sa) && !seq_lt(sc, sb) {
            if sa != sb {
                if sb != sc {
                    lemma_seq_lt_transitive(sa, sb, sc);
                }
            }
        }
    }

    fn key_le_exec(&self, other: &DeviceName) -> (r: bool) {
        let ca = device_class_of(self.0.as_str());
        let cb = device_class_of(other.0.as_str());
        if ca != cb {
            ca < cb
        } else if ca == 1 {
            match (device_number_of(self.0.as_str()), device_number_of(other.0.as_str())) {
                (Some(x), Some(y)) => x <= y,
                _ => true,
            }
        } else {
            !str_lt(short_device_name(other.0.as_str()), short_device_name(self.0.as_str()))
        }
    }
}

/// Device names in display order (`device_le`), equal ones in their given order.
fn sorted_devices(devices: &Vec<String>) -> (r: Vec<String>)
    ensures
        views(r@) == sort_seq::<DeviceName>(views(devices@)),
{
    let mut names: Vec<DeviceName> = Vec::new();
    let mut k: usize = 0;
    while k < devices.len()
        invariant
            k <= devices@.len(),
            views(names@) =~= views(devices@).take(k as int),
        decreases devices.len() - k,
    {
        let ghost before = views(names@);
        names.push(DeviceName(devices[k].clone()));
        assert(views(names@) =~= before.push(devices@[k as int]@));
        assert(views(devices@).take(k + 1) =~= views(devices@).take(k as int).push(devices@[k as int]@));
        k += 1;
    }
    assert(views(devices@).take(k as int) =~= views(devices@));
    let sorted = sort_by_key(names);
    let mut out: Vec<String> = Vec::new();
    let mut j: usize = 0;
    while j < sorted.len()
        invariant
            j <= sorted@.len(),
            views(out@) =~= views(sorted@).take(j as int),
        decreases sorted.len() - j,
    {
        let ghost before = views(out@);
        out.push(sorted[j].0.clone());
        assert(views(out@) =~= before.push(sorted@[j as int]@));
        assert(views(sorted@).take(j + 1) =~= views(sorted@).take(j as int).push(sorted@[j as int]@));
        j += 1;
    }
    assert(views(sorted@).take(j as int) =~= views(sorted@));
    out
}

/// The column titles.
pub open spec fn header_spec() -> Seq<Seq<char>> {
    seq!["Node"@, "Source"@, "Usage"@, "Pods"@]
}

/// A pod's line: `namespace/name (count)`, or with `show_devices` and known device names,
/// `namespace/name (dev0,dev1)`, the names in display order (`device_le`).
pub open spec fn pod_line(p: PodEntryView, show_devices: bool) -> Seq<char> {
    p.namespace + "/"@ + p.name + " ("@ + (if show_devices && p.devices.len() > 0 {
        join(sort_seq::<DeviceName>(p.devices), ","@)
    } else {
        int_text(p.count as int)
    }) + ")"@
}

/// The lines of the pods.
pub open spec fn pod_lines(pods: Seq<PodEntryView>, show_devices: bool) -> Seq<Seq<char>> {
    pods.map_values(|p: PodEntryView| pod_line(p, show_devices))
}

/// The pods cell: `-` when there are none, else one line per pod.
pub open spec fn pods_cell(pods: Seq<PodEntryView>, show_devices: bool) -> Seq<char> {
    if pods.len() == 0 {
        "-"@
    } else {
        join(pod_lines(pods, show_devices), "\n"@)
    }
}

/// The cells of a row: node, source (or `-`), `allocated / capacity`, pods.
pub open spec fn row_cells(r: NodeRowView, show_devices: bool) -> Seq<Seq<char>> {
    seq![
        r.node_name,
        match r.source {
            Some(s) => s.spec_label(),
            None => "-"@,
        },
        int_text(r.allocated as int) + " / "@ + int_text(r.capacity as int),
        pods_cell(r.pods, show_devices),
    ]
}

/// The views of a list of rows of cells.
pub open spec fn cell_views(rows: Seq<Vec<String>>) -> Seq<Seq<Seq<char>>> {
    rows.map_values(|r: Vec<String>| views(r@))
}

/// The text that the table drawing gives for a header and rows of cells: Unicode borders
/// with solid inner lines, columns as wide as their widest cell.
pub uninterp spec fn table_text(header: Seq<Seq<char>>, rows: Seq<Seq<Seq<char>>>) -> Seq<char>;

/// Draws the table with `comfy_table`: the `UTF8_FULL` preset with solid inner lines and
/// content arrangement disabled, so the text depends on the cells alone.
#[verifier::external_body]
fn draw_table(header: Vec<String>, rows: Vec<Vec<String>>) -> (r: String)
    ensures
        r@ == table_text(views(header@), cell_views(rows@)),
{
    let mut table = comfy_table::Table::new();
    table.load_preset(comfy_table::presets::UTF8_FULL).set_style(Part::VerticalLines, '│')
        .set_style(Part::HorizontalLines, '─').set_style(Part::MiddleIntersections, '┼')
        .set_style(Part::LeftBorderIntersections, '├').set_style(Part::RightBorderIntersections, '┤')
        .set_style(Part::TopBorderIntersections, '┬').set_style(Part::BottomBorderIntersections, '┴')
        .set_content_arrangement(comfy_table::ContentArrangement::Disabled).set_header(header)
        .add_rows(rows);
    table.to_string()
}

fn pod_text(p: &PodEntry, show_devices: bool) -> (r: String)
    ensures
        r@ == pod_line(p@, show_devices),
{
    let mut s = p.namespace.clone();
    s.append("/");
    s.append(p.name.as_str());
    s.append(" (");
    if show_devices && p.devices.len() > 0 {
        let sorted = sorted_devices(&p.devices);
        let d = join_strings(&sorted, ",");
        s.append(d.as_str());
    } else {
        push_int(p.count, &mut s);
    }
    s.append(")");
    assert(s@ =~= pod_line(p@, show_devices));
    s
}

fn pods_text(pods: &Vec<PodEntry>, show_devices: bool) -> (r: String)
    ensures
        r@ == pods_cell(views(pods@), show_devices),
{
    if pods.len() == 0 {
        return String::from_str("-");
    }
    let mut lines: Vec<String> = Vec::new();
    let mut k: usize = 0;
    while k < pods.len()
        invariant
            k <= pods@.len(),
            views(lines@) =~= pod_lines(views(pods@), show_devices).take(k as int),
        decreases pods.len() - k,
    {
        let ghost before = views(lines@);
        let line = pod_text(&pods[k], show_devices);
        lines.push(line);
        assert(views(lines@) =~= before.push(pod_line(pods@[k as int]@, show_devices)));
        k += 1;
    }
    assert(pod_lines(views(pods@), show_devices).take(k as int) =~= pod_lines(
        views(pods@),
        show_devices,
    ));
    join_strings(&lines, "\n")
}

fn cells_of(row: &NodeRow, show_devices: bool) -> (r: Vec<String>)
    ensures
        views(r@) == row_cells(row@, show_devices),
{
    let source = match &row.source {
        Some(s) => String::from_str(s.label()),
        None => String::from_str("-"),
    };
    let mut usage = String::new();
    push_int(row.allocated, &mut usage);
    usage.append(" / ");
    push_int(row.capacity, &mut usage);
    let mut cells: Vec<String> = Vec::new();
    cells.push(row.node_name.clone());
    cells.push(source);
    cells.push(usage);
    cells.push(pods_text(&row.pods, show_devices));
    assert(views(cells@) =~= row_cells(row@, show_devices));
    cells
}

/// The text of the table of `rows`: a header `Node`, `Source`, `Usage`, `Pods`, then per
/// row its cells, as `row_cells` gives them.
pub open spec fn render_spec(rows: Seq<NodeRowView>, show_devices: bool) -> Seq<char> {
    table_text(header_spec(), rows.map_values(|r: NodeRowView| row_cells(r, show_devices)))
}

/// Draws the table of `rows`; with `show_devices`, pods with known devices list them by
/// name instead of by count.
pub fn render(rows: &[NodeRow], show_devices: bool) -> (r: String)
    ensures
        r@ == render_spec(views(rows@), show_devices),
{
    let mut header: Vec<String> = Vec::new();
    header.push(String::from_str("Node"));
    header.push(String::from_str("Source"));
    header.push(String::from_str("Usage"));
    header.push(String::from_str("Pods"));
    assert(views(header@) =~= header_spec());
    let mut cells: Vec<Vec<String>> = Vec::new();
    let mut k: usize = 0;
    while k < rows.len()
        invariant
            k <= rows@.len(),
            cell_views(cells@) =~= views(rows@).map_values(
                |r: NodeRowView| row_cells(r, show_devices),
            ).take(k as int),
        decreases rows.len() - k,
    {
        let ghost before = cell_views(cells@);
        let c = cells_of(&rows[k], show_devices);
        cells.push(c);
        assert(cell_views(cells@) =~= before.push(row_cells(rows@[k as int]@, show_devices)));
        k += 1;
    }
    assert(views(rows@).map_values(|r: NodeRowView| row_cells(r, show_devices)).take(k as int)
        =~= views(rows@).map_values(|r: NodeRowView| row_cells(r, show_devices)));
    draw_table(header, cells)
}

} // verus!
