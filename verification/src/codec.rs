//! The flat-text codec: one record per line, four comma-separated fields.
//! Malformed lines are reported per line and skipped, never fatal to a load;
//! saving writes a header and the records in ascending id order.

use vstd::prelude::*;
use vstd::string::StringExecFns;
use crate::items::{spec_add, Items, Item, ItemModel};
use crate::num::{dec_valid, i64_dec, is_digit, lemma_i64_dec_chars, lemma_i64_dec_roundtrip,
    parse_i64, signed_val};
use crate::reports::{spec_report_add, Reports, Report, ReportModel};
use crate::text::{is_space_char, lemma_split_concat, lemma_split_no_sep, lemma_trim_id, lower_of,
    push_char, spec_split, spec_trim, split_char, trim};
use crate::num::push_i64_dec;

verus! {

/// What a record line can be reproached with: a numeric field that does not
/// parse, or a field that is not there at all, named either way.
#[derive(Debug, PartialEq)]
pub enum ParseError {
    InvalidNumericField(String),
    MissingField(String),
}

pub open spec fn i64_min() -> int {
    i64::MIN as int
}

pub open spec fn i64_max() -> int {
    i64::MAX as int
}

/// A well-formed record line: at least four comma-separated fields, the
/// first and third plain decimals, the fourth a decimal once trimmed.
pub open spec fn spec_line_ok(t: Seq<char>) -> bool {
    let fs = spec_split(t, ',');
    &&& fs.len() >= 4
    &&& dec_valid(fs[0], i64_min(), i64_max())
    &&& dec_valid(fs[2], i64_min(), i64_max())
    &&& dec_valid(spec_trim(fs[3]), i64_min(), i64_max())
}

/// The four values a well-formed record line carries.
pub open spec fn spec_line_val(t: Seq<char>) -> (int, Seq<char>, int, int) {
    let fs = spec_split(t, ',');
    (signed_val(fs[0]), fs[1], signed_val(fs[2]), signed_val(spec_trim(fs[3])))
}

/// Splits one record line into id, name-or-date, quantity and price-or-income.
/// The names `n2`, `n3`, `n4` label the last three fields in complaints.
pub fn parse_line(buffer: &str, n2: &str, n3: &str, n4: &str) -> (r: Result<
    (i64, String, i64, i64),
    ParseError,
>)
    ensures
        r is Ok <==> spec_line_ok(buffer@),
        r matches Ok(v) ==> ({
            let (id, name, q, p) = spec_line_val(buffer@);
            v.0 as int == id && v.1@ == name && v.2 as int == q && v.3 as int == p
        }),
        ({
            let fs = spec_split(buffer@, ',');
            &&& !dec_valid(fs[0], i64_min(), i64_max()) ==> (r matches Err(
                ParseError::InvalidNumericField(f,
            )) && f@ == "id"@)
            &&& (dec_valid(fs[0], i64_min(), i64_max()) && fs.len() < 2) ==> (r matches Err(
                ParseError::MissingField(f,
            )) && f@ == n2@)
            &&& (dec_valid(fs[0], i64_min(), i64_max()) && fs.len() == 2) ==> (r matches Err(
                ParseError::MissingField(f,
            )) && f@ == n3@)
            &&& (dec_valid(fs[0], i64_min(), i64_max()) && fs.len() >= 3 && !dec_valid(
                fs[2],
                i64_min(),
                i64_max(),
            )) ==> (r matches Err(ParseError::InvalidNumericField(f)) && f@ == n3@)
            &&& (dec_valid(fs[0], i64_min(), i64_max()) && fs.len() == 3 && dec_valid(
                fs[2],
                i64_min(),
                i64_max(),
            )) ==> (r matches Err(ParseError::MissingField(f)) && f@ == n4@)
            &&& (dec_valid(fs[0], i64_min(), i64_max()) && fs.len() >= 4 && dec_valid(
                fs[2],
                i64_min(),
                i64_max(),
            ) && !dec_valid(spec_trim(fs[3]), i64_min(), i64_max())) ==> (r matches Err(
                ParseError::InvalidNumericField(f,
            )) && f@ == n4@)
        }),
{
    let fields = split_char(buffer, ',');
    let f1 = match parse_i64(fields[0].as_str()) {
        Ok(v) => v,
        Err(_) => {
            return Err(ParseError::InvalidNumericField(String::from_str("id")));
        },
    };
    if fields.len() < 2 {
        return Err(ParseError::MissingField(String::from_str(n2)));
    }
    let f2 = fields[1].clone();
    if fields.len() < 3 {
        return Err(ParseError::MissingField(String::from_str(n3)));
    }
    let f3 = match parse_i64(fields[2].as_str()) {
        Ok(v) => v,
        Err(_) => {
            return Err(ParseError::InvalidNumericField(String::from_str(n3)));
        },
    };
    if fields.len() < 4 {
        return Err(ParseError::MissingField(String::from_str(n4)));
    }
    let f4 = match parse_i64(trim(fields[3].as_str())) {
        Ok(v) => v,
        Err(_) => {
            return Err(ParseError::InvalidNumericField(String::from_str(n4)));
        },
    };
    Ok((f1, f2, f3, f4))
}

/// One load step for the catalog: a blank or malformed line changes nothing,
/// a well-formed one is added verbatim by id.
pub open spec fn spec_load_items_step(s: Seq<ItemModel>, line: Seq<char>) -> Seq<ItemModel> {
    if line.len() == 0 || !spec_line_ok(line) {
        s
    } else {
        let (id, name, q, p) = spec_line_val(line);
        spec_add(s, lower_of(name), q, p, id, true)
    }
}

/// A blank or malformed line leaves the catalog as it stands: only the
/// well-formed lines of a buffer contribute entries.
pub proof fn lemma_malformed_line_skipped(s: Seq<ItemModel>, line: Seq<char>)
    requires
        line.len() == 0 || !spec_line_ok(line),
    ensures
        spec_load_items_step(s, line) == s,
{
}

pub open spec fn spec_items_load(lines: Seq<Seq<char>>) -> Seq<ItemModel>
    decreases lines.len(),
{
    if lines.len() == 0 {
        Seq::empty()
    } else {
        spec_load_items_step(spec_items_load(lines.drop_last()), lines.last())
    }
}

/// The catalog a text snapshot reconstructs, line by line.
pub open spec fn spec_parse_items(t: Seq<char>) -> Seq<ItemModel> {
    spec_items_load(spec_split(t, '\n'))
}

/// Reads a catalog snapshot: every well-formed line becomes an item under
/// its stored id, every malformed one is skipped.
pub fn parse_items(buffer: &str) -> (r: Items)
    ensures
        r@ == spec_parse_items(buffer@),
        r.wf(),
{
    let mut items = Items::new();
    let lines = split_char(buffer, '\n');
    let n = lines.len();
    let ghost ls = spec_split(buffer@, '\n');
    let mut k: usize = 0;
    proof {
        assert(ls.take(0) =~= Seq::<Seq<char>>::empty());
    }
    while k < n
        invariant
            0 <= k <= n,
            n == lines.len(),
            ls == lines@.map_values(|f: String| f@),
            items@ == spec_items_load(ls.take(k as int)),
            items.wf(),
        decreases n - k,
    {
        proof {
            assert(ls.take(k as int + 1).drop_last() =~= ls.take(k as int));
            assert(ls.take(k as int + 1).last() == ls[k as int]);
        }
        if lines[k].as_str().unicode_len() > 0 {
            match parse_line(lines[k].as_str(), "name", "quantity", "price") {
                Ok((item_id, item_name, item_quantity, item_price)) => {
                    items.add(item_name.as_str(), item_quantity, item_price, item_id, true);
                },
                Err(_) => {},
            }
        }
        k += 1;
    }
    proof {
        assert(ls.take(n as int) =~= ls);
    }
    items
}

/// The magnitude of an integer.
pub open spec fn abs(x: int) -> int {
    if x < 0 {
        -x
    } else {
        x
    }
}

/// How much one line can move a ledger quantity: nothing when it is skipped.
pub open spec fn spec_line_q_abs(line: Seq<char>) -> int {
    if line.len() == 0 || !spec_line_ok(line) {
        0
    } else {
        abs(spec_line_val(line).2)
    }
}

/// How much one line can move a ledger income, created or accumulated.
pub open spec fn spec_line_inc_abs(line: Seq<char>) -> int {
    if line.len() == 0 || !spec_line_ok(line) {
        0
    } else {
        let (id, date, q, inc) = spec_line_val(line);
        abs(inc) + abs(q * inc)
    }
}

pub open spec fn spec_load_q_abs(lines: Seq<Seq<char>>) -> int
    decreases lines.len(),
{
    if lines.len() == 0 {
        0
    } else {
        spec_load_q_abs(lines.drop_last()) + spec_line_q_abs(lines.last())
    }
}

pub open spec fn spec_load_inc_abs(lines: Seq<Seq<char>>) -> int
    decreases lines.len(),
{
    if lines.len() == 0 {
        0
    } else {
        spec_load_inc_abs(lines.drop_last()) + spec_line_inc_abs(lines.last())
    }
}

/// One load step for the ledger.
pub open spec fn spec_load_reports_step(s: Seq<ReportModel>, line: Seq<char>) -> Seq<ReportModel> {
    if line.len() == 0 || !spec_line_ok(line) {
        s
    } else {
        let (id, date, q, inc) = spec_line_val(line);
        spec_report_add(s, date, q, inc, id, true)
    }
}

pub open spec fn spec_reports_load(lines: Seq<Seq<char>>) -> Seq<ReportModel>
    decreases lines.len(),
{
    if lines.len() == 0 {
        Seq::empty()
    } else {
        spec_load_reports_step(spec_reports_load(lines.drop_last()), lines.last())
    }
}

/// The ledger a text snapshot reconstructs, line by line.
pub open spec fn spec_parse_reports(t: Seq<char>) -> Seq<ReportModel> {
    spec_reports_load(spec_split(t, '\n'))
}

/// The whole snapshot keeps quantities and incomes within the machine range,
/// whichever dates coincide: the magnitudes of all quantities, and of all
/// incomes however combined, stay below the largest representable value.
pub open spec fn spec_reports_load_fits(t: Seq<char>) -> bool {
    &&& spec_load_q_abs(spec_split(t, '\n')) <= i64_max()
    &&& spec_load_inc_abs(spec_split(t, '\n')) <= i64_max()
}

proof fn lemma_load_abs_nonneg(lines: Seq<Seq<char>>)
    ensures
        spec_load_q_abs(lines) >= 0,
        spec_load_inc_abs(lines) >= 0,
    decreases lines.len(),
{
    if lines.len() > 0 {
        lemma_load_abs_nonneg(lines.drop_last());
        let (id, date, q, inc) = spec_line_val(lines.last());
        assert(spec_line_q_abs(lines.last()) >= 0);
        assert(spec_line_inc_abs(lines.last()) >= 0);
    }
}

proof fn lemma_load_abs_prefix(lines: Seq<Seq<char>>, k: int)
    requires
        0 <= k <= lines.len(),
    ensures
        spec_load_q_abs(lines.take(k)) <= spec_load_q_abs(lines),
        spec_load_inc_abs(lines.take(k)) <= spec_load_inc_abs(lines),
    decreases lines.len(),
{
    if k == lines.len() {
        assert(lines.take(k) =~= lines);
    } else {
        assert(lines.drop_last().take(k) =~= lines.take(k));
        lemma_load_abs_prefix(lines.drop_last(), k);
        let last = lines.last();
        let (id, date, q, inc) = spec_line_val(last);
        assert(spec_line_q_abs(last) >= 0);
        assert(spec_line_inc_abs(last) >= 0);
    }
}

/// Reads a ledger snapshot: every well-formed line is folded in by date,
/// accumulating where a date repeats; malformed lines are skipped. The
/// premise is headroom for those accumulations.
pub fn parse_reports(buffer: &str) -> (r: Reports)
    requires
        spec_reports_load_fits(buffer@),
    ensures
        r@ == spec_parse_reports(buffer@),
        r.wf(),
{
    let mut reports = Reports::new();
    let lines = split_char(buffer, '\n');
    let n = lines.len();
    let ghost ls = spec_split(buffer@, '\n');
    let mut k: usize = 0;
    proof {
        assert(ls.take(0) =~= Seq::<Seq<char>>::empty());
        lemma_load_abs_nonneg(ls);
    }
    while k < n
        invariant
            0 <= k <= n,
            n == lines.len(),
            ls == lines@.map_values(|f: String| f@),
            reports@ == spec_reports_load(ls.take(k as int)),
            reports.wf(),
            spec_load_q_abs(ls) <= i64_max(),
            spec_load_inc_abs(ls) <= i64_max(),
            forall|j: int|
                0 <= j < reports@.len() ==> abs((#[trigger] reports@[j]).quantity)
                    <= spec_load_q_abs(ls.take(k as int)),
            forall|j: int|
                0 <= j < reports@.len() ==> abs((#[trigger] reports@[j]).income)
                    <= spec_load_inc_abs(ls.take(k as int)),
        decreases n - k,
    {
        let ghost pre = ls.take(k as int);
        let ghost cur = ls.take(k as int + 1);
        proof {
            assert(cur.drop_last() =~= pre);
            assert(cur.last() == ls[k as int]);
            lemma_load_abs_nonneg(pre);
            lemma_load_abs_prefix(ls, k as int + 1);
            lemma_load_abs_prefix(ls, k as int);
        }
        if lines[k].as_str().unicode_len() > 0 {
            match parse_line(lines[k].as_str(), "date", "quantity", "income") {
                Ok((id, date, quantity, income)) => {
                    proof {
                        assert(spec_line_q_abs(ls[k as int]) == abs(quantity as int));
                        assert(spec_line_inc_abs(ls[k as int]) == abs(income as int) + abs(
                            quantity as int * income as int,
                        ));
                    }
                    reports.add_or_update(date.as_str(), quantity, income, id, true);
                    proof {
                        lemma_report_add_bounds(
                            spec_reports_load(pre),
                            date@,
                            quantity as int,
                            income as int,
                            id as int,
                            spec_load_q_abs(pre),
                            spec_load_inc_abs(pre),
                        );
                    }
                },
                Err(_) => {},
            }
        }
        k += 1;
    }
    proof {
        assert(ls.take(n as int) =~= ls);
    }
    reports
}

/// Folding one sale into a ledger moves each entry by no more than the
/// sale's own magnitudes.
proof fn lemma_report_add_bounds(
    s: Seq<ReportModel>,
    date: Seq<char>,
    q: int,
    inc: int,
    id: int,
    qa: int,
    ia: int,
)
    requires
        0 <= qa,
        0 <= ia,
        forall|j: int| 0 <= j < s.len() ==> abs((#[trigger] s[j]).quantity) <= qa,
        forall|j: int| 0 <= j < s.len() ==> abs((#[trigger] s[j]).income) <= ia,
    ensures
        forall|j: int|
            0 <= j < spec_report_add(s, date, q, inc, id, true).len() ==> abs(
                (#[trigger] spec_report_add(s, date, q, inc, id, true)[j]).quantity,
            ) <= qa + abs(q),
        forall|j: int|
            0 <= j < spec_report_add(s, date, q, inc, id, true).len() ==> abs(
                (#[trigger] spec_report_add(s, date, q, inc, id, true)[j]).income,
            ) <= ia + abs(inc) + abs(q * inc),
{
    crate::reports::lemma_find_date_props(s, lower_of(date), 0);
    match crate::reports::spec_find_date(s, lower_of(date)) {
        Some(i) => {
            let m = ReportModel {
                id: s[i].id,
                date: s[i].date,
                quantity: s[i].quantity + q,
                income: s[i].income + q * inc,
            };
            assert(abs(s[i].quantity) <= qa);
            assert(abs(s[i].income) <= ia);
            assert(abs(s[i].quantity + q) <= abs(s[i].quantity) + abs(q));
            assert(abs(s[i].income + q * inc) <= abs(s[i].income) + abs(q * inc));
            lemma_rstore_bounds(s, m, qa + abs(q), ia + abs(inc) + abs(q * inc));
        },
        None => {
            let m = ReportModel { id: id, date: date, quantity: q, income: inc };
            lemma_rstore_bounds(s, m, qa + abs(q), ia + abs(inc) + abs(q * inc));
        },
    }
}

/// Keyed insertion keeps every bound that held of the entries and of the
/// newcomer.
proof fn lemma_rstore_bounds(s: Seq<ReportModel>, m: ReportModel, qb: int, ib: int)
    requires
        forall|j: int| 0 <= j < s.len() ==> abs((#[trigger] s[j]).quantity) <= qb,
        forall|j: int| 0 <= j < s.len() ==> abs((#[trigger] s[j]).income) <= ib,
        abs(m.quantity) <= qb,
        abs(m.income) <= ib,
    ensures
        forall|j: int|
            0 <= j < crate::reports::spec_rstore(s, m).len() ==> abs(
                (#[trigger] crate::reports::spec_rstore(s, m)[j]).quantity,
            ) <= qb,
        forall|j: int|
            0 <= j < crate::reports::spec_rstore(s, m).len() ==> abs(
                (#[trigger] crate::reports::spec_rstore(s, m)[j]).income,
            ) <= ib,
{
    crate::reports::lemma_find_rid_props(s, m.id, 0);
    let t = crate::reports::spec_rstore(s, m);
    match crate::reports::spec_find_rid(s, m.id) {
        Some(u) => {
            assert forall|j: int| 0 <= j < t.len() implies abs((#[trigger] t[j]).quantity) <= qb
                && abs(t[j].income) <= ib by {
                if j != u {
                    assert(t[j] == s[j]);
                } else {
                    assert(t[j] == m);
                }
            }
        },
        None => {
            assert forall|j: int| 0 <= j < t.len() implies abs((#[trigger] t[j]).quantity) <= qb
                && abs(t[j].income) <= ib by {
                if j < s.len() {
                    assert(t[j] == s[j]);
                } else {
                    assert(t[j] == m);
                }
            }
        },
    }
}

/// The header and rows a catalog snapshot is written as.
pub open spec fn spec_item_row(m: ItemModel) -> Seq<char> {
    i64_dec(m.id) + seq![','] + m.name + seq![','] + i64_dec(m.quantity) + seq![','] + i64_dec(
        m.price,
    ) + seq!['\n']
}

pub open spec fn spec_item_rows(s: Seq<ItemModel>) -> Seq<char>
    decreases s.len(),
{
    if s.len() == 0 {
        Seq::empty()
    } else {
        spec_item_rows(s.drop_last()) + spec_item_row(s.last())
    }
}

pub open spec fn spec_items_csv(s: Seq<ItemModel>) -> Seq<char> {
    "id,name,stock,price\n"@ + spec_item_rows(s)
}

/// Writes the catalog rows, header first, in the order given.
pub fn items_csv(list: &Vec<Item>) -> (r: String)
    ensures
        r@ == spec_items_csv(list@.map_values(|x: Item| x@)),
{
    let ghost ms = list@.map_values(|x: Item| x@);
    let mut out = String::from_str("id,name,stock,price\n");
    let n = list.len();
    let mut k: usize = 0;
    proof {
        assert(ms.take(0) =~= Seq::<ItemModel>::empty());
        assert(out@ =~= "id,name,stock,price\n"@ + spec_item_rows(ms.take(0)));
    }
    while k < n
        invariant
            0 <= k <= n,
            n == list.len(),
            ms == list@.map_values(|x: Item| x@),
            out@ == "id,name,stock,price\n"@ + spec_item_rows(ms.take(k as int)),
        decreases n - k,
    {
        push_i64_dec(&mut out, list[k].id);
        push_char(&mut out, ',');
        out.append(list[k].name.as_str());
        push_char(&mut out, ',');
        push_i64_dec(&mut out, list[k].quantity);
        push_char(&mut out, ',');
        push_i64_dec(&mut out, list[k].price);
        push_char(&mut out, '\n');
        proof {
            assert(ms.take(k as int + 1).drop_last() =~= ms.take(k as int));
            assert(ms.take(k as int + 1).last() == ms[k as int]);
            assert(out@ =~= "id,name,stock,price\n"@ + spec_item_rows(ms.take(k as int + 1)));
        }
        k += 1;
    }
    proof {
        assert(ms.take(n as int) =~= ms);
    }
    out
}

/// The header and rows a ledger snapshot is written as.
pub open spec fn spec_report_row(m: ReportModel) -> Seq<char> {
    i64_dec(m.id) + seq![','] + m.date + seq![','] + i64_dec(m.quantity) + seq![','] + i64_dec(
        m.income,
    ) + seq!['\n']
}

pub open spec fn spec_report_rows(s: Seq<ReportModel>) -> Seq<char>
    decreases s.len(),
{
    if s.len() == 0 {
        Seq::empty()
    } else {
        spec_report_rows(s.drop_last()) + spec_report_row(s.last())
    }
}

pub open spec fn spec_reports_csv(s: Seq<ReportModel>) -> Seq<char> {
    "id,date,quantity,income\n"@ + spec_report_rows(s)
}

/// Writes the ledger rows, header first, in the order given.
pub fn reports_csv(list: &Vec<Report>) -> (r: String)
    ensures
        r@ == spec_reports_csv(list@.map_values(|x: Report| x@)),
{
    let ghost ms = list@.map_values(|x: Report| x@);
    let mut out = String::from_str("id,date,quantity,income\n");
    let n = list.len();
    let mut k: usize = 0;
    proof {
        assert(ms.take(0) =~= Seq::<ReportModel>::empty());
        assert(out@ =~= "id,date,quantity,income\n"@ + spec_report_rows(ms.take(0)));
    }
    while k < n
        invariant
            0 <= k <= n,
            n == list.len(),
            ms == list@.map_values(|x: Report| x@),
            out@ == "id,date,quantity,income\n"@ + spec_report_rows(ms.take(k as int)),
        decreases n - k,
    {
        push_i64_dec(&mut out, list[k].id);
        push_char(&mut out, ',');
        out.append(list[k].date.as_str());
        push_char(&mut out, ',');
        push_i64_dec(&mut out, list[k].quantity);
        push_char(&mut out, ',');
        push_i64_dec(&mut out, list[k].income);
        push_char(&mut out, '\n');
        proof {
            assert(ms.take(k as int + 1).drop_last() =~= ms.take(k as int));
            assert(ms.take(k as int + 1).last() == ms[k as int]);
            assert(out@ =~= "id,date,quantity,income\n"@ + spec_report_rows(ms.take(k as int + 1)));
        }
        k += 1;
    }
    proof {
        assert(ms.take(n as int) =~= ms);
    }
    out
}

// ------------------------------------------------------------------
// The round trip: a snapshot written by the serializers reparses to the
// same entries.
// ------------------------------------------------------------------

/// Values that the decimal renderings can carry back.
pub open spec fn item_in_range(m: ItemModel) -> bool {
    &&& i64_min() <= m.id <= i64_max()
    &&& i64_min() <= m.quantity <= i64_max()
    &&& i64_min() <= m.price <= i64_max()
}

pub open spec fn report_in_range(m: ReportModel) -> bool {
    &&& i64_min() <= m.id <= i64_max()
    &&& i64_min() <= m.quantity <= i64_max()
    &&& i64_min() <= m.income <= i64_max()
}

/// A text field that survives a row: no separator and no line break.
pub open spec fn field_clean(n: Seq<char>) -> bool {
    forall|j: int| 0 <= j < n.len() ==> #[trigger] n[j] != ',' && n[j] != '\n'
}

/// A record row without its closing line break.
pub open spec fn spec_row_body(id: int, text: Seq<char>, q: int, p: int) -> Seq<char> {
    i64_dec(id) + seq![','] + text + seq![','] + i64_dec(q) + seq![','] + i64_dec(p)
}

proof fn lemma_dec_chars_plain(n: int)
    requires
        i64_min() <= n <= i64_max(),
    ensures
        forall|j: int|
            0 <= j < i64_dec(n).len() ==> #[trigger] i64_dec(n)[j] != ',' && i64_dec(n)[j] != '\n'
                && !is_space_char(i64_dec(n)[j]),
{
    lemma_i64_dec_chars(n);
    assert forall|j: int| 0 <= j < i64_dec(n).len() implies #[trigger] i64_dec(n)[j] != ','
        && i64_dec(n)[j] != '\n' && !is_space_char(i64_dec(n)[j]) by {
        let c = i64_dec(n)[j];
        assert(is_digit(c) || c == '-');
    }
}

/// A row body splits back into exactly its four fields, is a well-formed
/// record line, carries its own values, and holds no line break.
proof fn lemma_row_body_ok(id: int, text: Seq<char>, q: int, p: int)
    requires
        i64_min() <= id <= i64_max(),
        i64_min() <= q <= i64_max(),
        i64_min() <= p <= i64_max(),
        field_clean(text),
    ensures
        spec_split(spec_row_body(id, text, q, p), ',') =~~= seq![
            i64_dec(id),
            text,
            i64_dec(q),
            i64_dec(p),
        ],
        spec_line_ok(spec_row_body(id, text, q, p)),
        spec_line_val(spec_row_body(id, text, q, p)) == (id, text, q, p),
        spec_row_body(id, text, q, p).len() > 0,
        forall|j: int|
            0 <= j < spec_row_body(id, text, q, p).len() ==> #[trigger] spec_row_body(
                id,
                text,
                q,
                p,
            )[j] != '\n',
{
    let body = spec_row_body(id, text, q, p);
    lemma_dec_chars_plain(id);
    lemma_dec_chars_plain(q);
    lemma_dec_chars_plain(p);
    let rest1 = text + seq![','] + i64_dec(q) + seq![','] + i64_dec(p);
    let rest2 = i64_dec(q) + seq![','] + i64_dec(p);
    assert(body =~= i64_dec(id) + seq![','] + rest1);
    lemma_split_concat(i64_dec(id), rest1, ',');
    assert(rest1 =~= text + seq![','] + rest2);
    lemma_split_concat(text, rest2, ',');
    assert(rest2 =~= i64_dec(q) + seq![','] + i64_dec(p));
    lemma_split_concat(i64_dec(q), i64_dec(p), ',');
    lemma_split_no_sep(i64_dec(p), ',');
    assert(spec_split(body, ',') =~~= seq![i64_dec(id), text, i64_dec(q), i64_dec(p)]);
    lemma_i64_dec_roundtrip(id);
    lemma_i64_dec_roundtrip(q);
    lemma_i64_dec_roundtrip(p);
    lemma_trim_id(i64_dec(p));
    assert(spec_split(body, ',')[0] == i64_dec(id));
    assert(spec_split(body, ',')[2] == i64_dec(q));
    assert(spec_trim(spec_split(body, ',')[3]) == i64_dec(p));
    assert(spec_line_val(body) == (id, text, q, p));
}

proof fn lemma_item_rows_front(s: Seq<ItemModel>)
    requires
        s.len() > 0,
    ensures
        spec_item_rows(s) == spec_item_row(s[0]) + spec_item_rows(s.drop_first()),
    decreases s.len(),
{
    if s.len() == 1 {
        assert(s.drop_last() =~= Seq::<ItemModel>::empty());
        assert(s.drop_first() =~= Seq::<ItemModel>::empty());
        assert(spec_item_rows(s) =~= spec_item_row(s[0]) + spec_item_rows(s.drop_first()));
    } else {
        lemma_item_rows_front(s.drop_last());
        assert(s.drop_last()[0] == s[0]);
        assert(s.drop_first().drop_last() =~= s.drop_last().drop_first());
        assert(s.drop_first().last() == s.last());
        assert(spec_item_rows(s.drop_first()) == spec_item_rows(s.drop_first().drop_last())
            + spec_item_row(s.last()));
        assert(spec_item_rows(s) =~= spec_item_row(s[0]) + spec_item_rows(s.drop_first()));
    }
}

/// The body of an item's row.
pub open spec fn spec_item_body(m: ItemModel) -> Seq<char> {
    spec_row_body(m.id, m.name, m.quantity, m.price)
}

proof fn lemma_item_rows_split(s: Seq<ItemModel>)
    requires
        forall|i: int| 0 <= i < s.len() ==> item_in_range(#[trigger] s[i]),
        forall|i: int| 0 <= i < s.len() ==> field_clean((#[trigger] s[i]).name),
    ensures
        spec_split(spec_item_rows(s), '\n') =~~= s.map_values(|m: ItemModel| spec_item_body(m)).push(
            Seq::<char>::empty(),
        ),
    decreases s.len(),
{
    let bodies = s.map_values(|m: ItemModel| spec_item_body(m));
    if s.len() == 0 {
        assert(spec_split(spec_item_rows(s), '\n') =~~= bodies.push(Seq::<char>::empty()));
    } else {
        lemma_item_rows_front(s);
        let m0 = s[0];
        lemma_row_body_ok(m0.id, m0.name, m0.quantity, m0.price);
        assert(spec_item_row(m0) =~= spec_item_body(m0) + seq!['\n']);
        assert(spec_item_rows(s) =~= spec_item_body(m0) + seq!['\n'] + spec_item_rows(
            s.drop_first(),
        ));
        lemma_split_concat(spec_item_body(m0), spec_item_rows(s.drop_first()), '\n');
        assert(forall|i: int|
            0 <= i < s.drop_first().len() ==> item_in_range(#[trigger] s.drop_first()[i])
                && field_clean(s.drop_first()[i].name));
        lemma_item_rows_split(s.drop_first());
        assert(spec_split(spec_item_rows(s), '\n') =~~= bodies.push(Seq::<char>::empty()));
    }
}

proof fn lemma_header_line_skipped()
    ensures
        "id,name,stock,price\n"@ =~= "id,name,stock,price"@ + seq!['\n'],
        !spec_line_ok("id,name,stock,price"@),
        forall|j: int|
            0 <= j < "id,name,stock,price"@.len() ==> #[trigger] "id,name,stock,price"@[j] != '\n',
{
    reveal_strlit("id,name,stock,price\n");
    reveal_strlit("id,name,stock,price");
    reveal_strlit("id");
    reveal_strlit("name,stock,price");
    let hb = "id,name,stock,price"@;
    assert("id,name,stock,price\n"@ =~= hb + seq!['\n']);
    assert(hb =~= "id"@ + seq![','] + "name,stock,price"@);
    assert(forall|j: int| 0 <= j < "id"@.len() ==> #[trigger] "id"@[j] != ',');
    lemma_split_concat("id"@, "name,stock,price"@, ',');
    assert(spec_split(hb, ',')[0] == "id"@);
    assert(!is_digit("id"@[0]));
    assert(!dec_valid("id"@, i64_min(), i64_max()));
}

proof fn lemma_items_load_of_rows(s: Seq<ItemModel>)
    requires
        crate::items::wf_items(s),
        forall|i: int| 0 <= i < s.len() ==> item_in_range(#[trigger] s[i]),
        forall|i: int| 0 <= i < s.len() ==> field_clean((#[trigger] s[i]).name),
        forall|i: int| 0 <= i < s.len() ==> lower_of((#[trigger] s[i]).name) == s[i].name,
    ensures
        spec_items_load(seq!["id,name,stock,price"@] + s.map_values(|m: ItemModel| spec_item_body(m)))
            == s,
    decreases s.len(),
{
    let hb = "id,name,stock,price"@;
    let bodies = s.map_values(|m: ItemModel| spec_item_body(m));
    let lines = seq![hb] + bodies;
    lemma_header_line_skipped();
    if s.len() == 0 {
        assert(lines =~~= seq![hb]);
        assert(lines.len() == 1);
        assert(lines.last() == hb);
        assert(lines.drop_last() =~~= Seq::<Seq<char>>::empty());
        assert(lines.drop_last().len() == 0);
        assert(spec_items_load(lines.drop_last()) == Seq::<ItemModel>::empty());
        assert(spec_items_load(lines) == spec_load_items_step(
            spec_items_load(lines.drop_last()),
            hb,
        ));
        assert(spec_load_items_step(Seq::<ItemModel>::empty(), hb) == Seq::<ItemModel>::empty());
        assert(spec_items_load(lines) =~= s);
    } else {
        let s1 = s.drop_last();
        let m = s.last();
        assert(lines.drop_last() =~~= seq![hb] + s1.map_values(
            |x: ItemModel| spec_item_body(x),
        ));
        assert(lines.last() == spec_item_body(m));
        lemma_items_load_of_rows(s1);
        lemma_row_body_ok(m.id, m.name, m.quantity, m.price);
        // The id is fresh among the earlier entries, so the load appends.
        assert(forall|j: int| 0 <= j < s1.len() ==> (#[trigger] s1[j]).id != m.id);
        crate::items::lemma_find_id_none(s1, m.id, 0);
        let stored = ItemModel { id: m.id, name: lower_of(m.name), quantity: m.quantity, price: m.price };
        assert(stored == m);
        assert(spec_items_load(lines) == s1.push(m));
        assert(s1.push(m) =~= s);
    }
}

/// The catalog round trip: a snapshot written in ascending id order reparses
/// to exactly the entries it was written from — ids, names, quantities and
/// prices alike — as long as the names are stored folded (as every load and
/// live add leaves them) and carry no separator or line break.
pub proof fn lemma_items_round_trip(s: Seq<ItemModel>)
    requires
        crate::items::wf_items(s),
        forall|i: int| 0 <= i < s.len() ==> item_in_range(#[trigger] s[i]),
        forall|i: int| 0 <= i < s.len() ==> field_clean((#[trigger] s[i]).name),
        forall|i: int| 0 <= i < s.len() ==> lower_of((#[trigger] s[i]).name) == s[i].name,
    ensures
        spec_parse_items(spec_items_csv(s)) == s,
{
    let hb = "id,name,stock,price"@;
    let bodies = s.map_values(|m: ItemModel| spec_item_body(m));
    lemma_header_line_skipped();
    assert(spec_items_csv(s) =~= hb + seq!['\n'] + spec_item_rows(s));
    lemma_split_concat(hb, spec_item_rows(s), '\n');
    lemma_item_rows_split(s);
    let lines = spec_split(spec_items_csv(s), '\n');
    assert(lines =~~= (seq![hb] + bodies).push(Seq::<char>::empty()));
    assert(lines.drop_last() =~~= seq![hb] + bodies);
    assert(lines.last() == Seq::<char>::empty());
    lemma_items_load_of_rows(s);
    assert(spec_items_load(lines) == s);
}

/// The body of a report's row.
pub open spec fn spec_report_body(m: ReportModel) -> Seq<char> {
    spec_row_body(m.id, m.date, m.quantity, m.income)
}

proof fn lemma_report_rows_front(s: Seq<ReportModel>)
    requires
        s.len() > 0,
    ensures
        spec_report_rows(s) == spec_report_row(s[0]) + spec_report_rows(s.drop_first()),
    decreases s.len(),
{
    if s.len() == 1 {
        assert(s.drop_last() =~= Seq::<ReportModel>::empty());
        assert(s.drop_first() =~= Seq::<ReportModel>::empty());
        assert(spec_report_rows(s) =~= spec_report_row(s[0]) + spec_report_rows(s.drop_first()));
    } else {
        lemma_report_rows_front(s.drop_last());
        assert(s.drop_last()[0] == s[0]);
        assert(s.drop_first().drop_last() =~= s.drop_last().drop_first());
        assert(s.drop_first().last() == s.last());
        assert(spec_report_rows(s.drop_first()) == spec_report_rows(s.drop_first().drop_last())
            + spec_report_row(s.last()));
        assert(spec_report_rows(s) =~= spec_report_row(s[0]) + spec_report_rows(s.drop_first()));
    }
}

proof fn lemma_report_rows_split(s: Seq<ReportModel>)
    requires
        forall|i: int| 0 <= i < s.len() ==> report_in_range(#[trigger] s[i]),
        forall|i: int| 0 <= i < s.len() ==> field_clean((#[trigger] s[i]).date),
    ensures
        spec_split(spec_report_rows(s), '\n') =~~= s.map_values(
            |m: ReportModel| spec_report_body(m),
        ).push(Seq::<char>::empty()),
    decreases s.len(),
{
    let bodies = s.map_values(|m: ReportModel| spec_report_body(m));
    if s.len() == 0 {
        assert(spec_split(spec_report_rows(s), '\n') =~~= bodies.push(Seq::<char>::empty()));
    } else {
        lemma_report_rows_front(s);
        let m0 = s[0];
        lemma_row_body_ok(m0.id, m0.date, m0.quantity, m0.income);
        assert(spec_report_row(m0) =~= spec_report_body(m0) + seq!['\n']);
        assert(spec_report_rows(s) =~= spec_report_body(m0) + seq!['\n'] + spec_report_rows(
            s.drop_first(),
        ));
        lemma_split_concat(spec_report_body(m0), spec_report_rows(s.drop_first()), '\n');
        assert(forall|i: int|
            0 <= i < s.drop_first().len() ==> report_in_range(#[trigger] s.drop_first()[i])
                && field_clean(s.drop_first()[i].date));
        lemma_report_rows_split(s.drop_first());
        assert(spec_split(spec_report_rows(s), '\n') =~~= bodies.push(Seq::<char>::empty()));
    }
}

proof fn lemma_report_header_skipped()
    ensures
        "id,date,quantity,income\n"@ =~= "id,date,quantity,income"@ + seq!['\n'],
        !spec_line_ok("id,date,quantity,income"@),
        forall|j: int|
            0 <= j < "id,date,quantity,income"@.len() ==> #[trigger] "id,date,quantity,income"@[j]
                != '\n',
{
    reveal_strlit("id,date,quantity,income\n");
    reveal_strlit("id,date,quantity,income");
    reveal_strlit("id");
    reveal_strlit("date,quantity,income");
    let hb = "id,date,quantity,income"@;
    assert("id,date,quantity,income\n"@ =~= hb + seq!['\n']);
    assert(hb =~= "id"@ + seq![','] + "date,quantity,income"@);
    assert(forall|j: int| 0 <= j < "id"@.len() ==> #[trigger] "id"@[j] != ',');
    lemma_split_concat("id"@, "date,quantity,income"@, ',');
    assert(spec_split(hb, ',')[0] == "id"@);
    assert(!is_digit("id"@[0]));
    assert(!dec_valid("id"@, i64_min(), i64_max()));
}

proof fn lemma_reports_load_of_rows(s: Seq<ReportModel>)
    requires
        crate::reports::wf_reports(s),
        forall|i: int| 0 <= i < s.len() ==> report_in_range(#[trigger] s[i]),
        forall|i: int| 0 <= i < s.len() ==> field_clean((#[trigger] s[i]).date),
        forall|i: int, j: int|
            0 <= i < j < s.len() ==> lower_of((#[trigger] s[i]).date) != lower_of(
                (#[trigger] s[j]).date,
            ),
    ensures
        spec_reports_load(
            seq!["id,date,quantity,income"@] + s.map_values(|m: ReportModel| spec_report_body(m)),
        ) == s,
    decreases s.len(),
{
    let hb = "id,date,quantity,income"@;
    let bodies = s.map_values(|m: ReportModel| spec_report_body(m));
    let lines = seq![hb] + bodies;
    lemma_report_header_skipped();
    if s.len() == 0 {
        assert(lines =~~= seq![hb]);
        assert(lines.len() == 1);
        assert(lines.last() == hb);
        assert(lines.drop_last() =~~= Seq::<Seq<char>>::empty());
        assert(lines.drop_last().len() == 0);
        assert(spec_reports_load(lines.drop_last()) == Seq::<ReportModel>::empty());
        assert(spec_reports_load(lines) == spec_load_reports_step(
            spec_reports_load(lines.drop_last()),
            hb,
        ));
        assert(spec_load_reports_step(Seq::<ReportModel>::empty(), hb)
            == Seq::<ReportModel>::empty());
        assert(spec_reports_load(lines) =~= s);
    } else {
        let s1 = s.drop_last();
        let m = s.last();
        assert(lines.drop_last() =~~= seq![hb] + s1.map_values(
            |x: ReportModel| spec_report_body(x),
        ));
        assert(lines.last() == spec_report_body(m));
        lemma_reports_load_of_rows(s1);
        lemma_row_body_ok(m.id, m.date, m.quantity, m.income);
        // No earlier report answers to this date, so the load creates one,
        // and its id is fresh, so the creation appends.
        assert(forall|j: int|
            0 <= j < s1.len() ==> lower_of((#[trigger] s1[j]).date) != lower_of(m.date));
        crate::reports::lemma_find_date_none(s1, lower_of(m.date), 0);
        assert(forall|j: int| 0 <= j < s1.len() ==> (#[trigger] s1[j]).id != m.id);
        crate::reports::lemma_find_rid_none(s1, m.id, 0);
        let stored = ReportModel { id: m.id, date: m.date, quantity: m.quantity, income: m.income };
        assert(stored == m);
        assert(spec_reports_load(lines) == s1.push(m));
        assert(s1.push(m) =~= s);
    }
}

/// The ledger round trip: a snapshot written in ascending id order reparses
/// to exactly the reports it was written from, as long as no two dates
/// coincide once folded (else the load would merge them) and no date carries
/// a separator or line break.
pub proof fn lemma_reports_round_trip(s: Seq<ReportModel>)
    requires
        crate::reports::wf_reports(s),
        forall|i: int| 0 <= i < s.len() ==> report_in_range(#[trigger] s[i]),
        forall|i: int| 0 <= i < s.len() ==> field_clean((#[trigger] s[i]).date),
        forall|i: int, j: int|
            0 <= i < j < s.len() ==> lower_of((#[trigger] s[i]).date) != lower_of(
                (#[trigger] s[j]).date,
            ),
    ensures
        spec_parse_reports(spec_reports_csv(s)) == s,
{
    let hb = "id,date,quantity,income"@;
    let bodies = s.map_values(|m: ReportModel| spec_report_body(m));
    lemma_report_header_skipped();
    assert(spec_reports_csv(s) =~= hb + seq!['\n'] + spec_report_rows(s));
    lemma_split_concat(hb, spec_report_rows(s), '\n');
    lemma_report_rows_split(s);
    let lines = spec_split(spec_reports_csv(s), '\n');
    assert(lines =~~= (seq![hb] + bodies).push(Seq::<char>::empty()));
    assert(lines.drop_last() =~~= seq![hb] + bodies);
    assert(lines.last() == Seq::<char>::empty());
    lemma_reports_load_of_rows(s);
    assert(spec_reports_load(lines) == s);
}

} // verus!
