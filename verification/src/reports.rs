//! The sales ledger: one aggregate report per date, found case-insensitively
//! by the date string. Repeated sales on one date accumulate; they never
//! overwrite.

use vstd::prelude::*;
use vstd::multiset::Multiset;
use vstd::seq_lib::lemma_multiset_commutative;
use crate::text::{lower_of, lowercase, push_char, str_eq};

verus! {

broadcast use vstd::seq_lib::group_seq_lib_default;

/// One per-date aggregate report.
#[derive(Debug, PartialEq)]
pub struct Report {
    pub id: i64,
    pub date: String,
    pub quantity: i64,
    pub income: i64,
}

/// The mathematical image of a report.
pub struct ReportModel {
    pub id: int,
    pub date: Seq<char>,
    pub quantity: int,
    pub income: int,
}

impl View for Report {
    type V = ReportModel;

    open spec fn view(&self) -> ReportModel {
        ReportModel {
            id: self.id as int,
            date: self.date@,
            quantity: self.quantity as int,
            income: self.income as int,
        }
    }
}

impl Clone for Report {
    /// An exact copy, field for field.
    fn clone(&self) -> (r: Report)
        ensures
            r@ == self@,
    {
        Report {
            id: self.id,
            date: self.date.clone(),
            quantity: self.quantity,
            income: self.income,
        }
    }
}

/// The first position at or after `i` whose report's folded date is `folded`.
pub open spec fn spec_find_date_at(s: Seq<ReportModel>, folded: Seq<char>, i: int) -> Option<int>
    decreases s.len() - i,
{
    if i < 0 || i >= s.len() {
        None
    } else if lower_of(s[i].date) == folded {
        Some(i)
    } else {
        spec_find_date_at(s, folded, i + 1)
    }
}

/// The first position whose report's folded date is `folded`.
pub open spec fn spec_find_date(s: Seq<ReportModel>, folded: Seq<char>) -> Option<int> {
    spec_find_date_at(s, folded, 0)
}

/// The first position at or after `i` whose report has the id `id`.
pub open spec fn spec_find_rid_at(s: Seq<ReportModel>, id: int, i: int) -> Option<int>
    decreases s.len() - i,
{
    if i < 0 || i >= s.len() {
        None
    } else if s[i].id == id {
        Some(i)
    } else {
        spec_find_rid_at(s, id, i + 1)
    }
}

/// The first position whose report has the id `id`.
pub open spec fn spec_find_rid(s: Seq<ReportModel>, id: int) -> Option<int> {
    spec_find_rid_at(s, id, 0)
}

/// The largest id in a non-empty ledger.
pub open spec fn spec_max_rid(s: Seq<ReportModel>) -> int
    decreases s.len(),
{
    if s.len() <= 1 {
        s[0].id
    } else if spec_max_rid(s.drop_last()) >= s.last().id {
        spec_max_rid(s.drop_last())
    } else {
        s.last().id
    }
}

/// The id a freshly created report receives.
pub open spec fn spec_new_rid(s: Seq<ReportModel>) -> int {
    if s.len() == 0 {
        0
    } else {
        spec_max_rid(s) + 1
    }
}

/// Keyed insertion: replaces the report that carries `m.id`, or appends.
pub open spec fn spec_rstore(s: Seq<ReportModel>, m: ReportModel) -> Seq<ReportModel> {
    match spec_find_rid(s, m.id) {
        Some(i) => s.update(i, m),
        None => s.push(m),
    }
}

/// What `add_or_update` leaves behind. An existing report for the date
/// accumulates: the second numeric argument acts as a per-unit rate there,
/// and as an absolute income only when a report is created on the load path.
pub open spec fn spec_report_add(
    s: Seq<ReportModel>,
    date: Seq<char>,
    quantity: int,
    income: int,
    id: int,
    from_file: bool,
) -> Seq<ReportModel> {
    match spec_find_date(s, lower_of(date)) {
        Some(i) => spec_rstore(
            s,
            ReportModel {
                id: s[i].id,
                date: s[i].date,
                quantity: s[i].quantity + quantity,
                income: s[i].income + quantity * income,
            },
        ),
        None => {
            let nid = if from_file {
                id
            } else {
                spec_new_rid(s)
            };
            let inc = if from_file {
                income
            } else {
                quantity * income
            };
            spec_rstore(s, ReportModel { id: nid, date: date, quantity, income: inc })
        },
    }
}

/// Ids are pairwise distinct.
pub open spec fn wf_reports(s: Seq<ReportModel>) -> bool {
    forall|i: int, j: int| 0 <= i < j < s.len() ==> #[trigger] s[i].id != #[trigger] s[j].id
}

/// A fresh id can be assigned without leaving the machine range.
pub open spec fn can_assign_rid(s: Seq<ReportModel>) -> bool {
    s.len() == 0 || spec_max_rid(s) < i64::MAX as int
}

/// Ascending id order.
pub open spec fn sorted_by_rid(s: Seq<ReportModel>) -> bool {
    forall|i: int, j: int| 0 <= i < j < s.len() ==> #[trigger] s[i].id <= #[trigger] s[j].id
}

/// Where a lookup by id lands.
pub proof fn lemma_find_rid_props(s: Seq<ReportModel>, id: int, k: int)
    requires
        0 <= k,
    ensures
        spec_find_rid_at(s, id, k) matches Some(i) ==> k <= i < s.len() && s[i].id == id,
        spec_find_rid_at(s, id, k) is None ==> forall|j: int|
            k <= j < s.len() ==> (#[trigger] s[j]).id != id,
    decreases s.len() - k,
{
    if k < s.len() && s[k].id != id {
        lemma_find_rid_props(s, id, k + 1);
    }
}

/// Where a lookup by folded date lands.
pub proof fn lemma_find_date_props(s: Seq<ReportModel>, folded: Seq<char>, k: int)
    requires
        0 <= k,
    ensures
        spec_find_date_at(s, folded, k) matches Some(i) ==> k <= i < s.len() && lower_of(s[i].date)
            == folded,
        spec_find_date_at(s, folded, k) is None ==> forall|j: int|
            k <= j < s.len() ==> lower_of((#[trigger] s[j]).date) != folded,
    decreases s.len() - k,
{
    if k < s.len() && lower_of(s[k].date) != folded {
        lemma_find_date_props(s, folded, k + 1);
    }
}

/// The ledger.
pub struct Reports {
    list: Vec<Report>,
}

impl View for Reports {
    type V = Seq<ReportModel>;

    closed spec fn view(&self) -> Seq<ReportModel> {
        self.list@.map_values(|x: Report| x@)
    }
}

impl Reports {
    /// Distinct ids throughout.
    pub open spec fn wf(&self) -> bool {
        wf_reports(self@)
    }

    /// An empty ledger.
    pub fn new() -> (r: Reports)
        ensures
            r@ == Seq::<ReportModel>::empty(),
            r.wf(),
    {
        let r = Reports { list: Vec::new() };
        proof {
            assert(r@ =~= Seq::<ReportModel>::empty());
        }
        r
    }

    /// The report under the given id, if any.
    pub fn find_by_id(&self, id: i64) -> (r: Option<Report>)
        ensures
            match r {
                Some(rep) => spec_find_rid(self@, id as int) matches Some(i) && rep@ == self@[i],
                None => spec_find_rid(self@, id as int) is None,
            },
    {
        let n = self.list.len();
        let mut k: usize = 0;
        while k < n
            invariant
                0 <= k <= n,
                n == self.list.len(),
                spec_find_rid(self@, id as int) == spec_find_rid_at(self@, id as int, k as int),
            decreases n - k,
        {
            if self.list[k].id == id {
                return Some(self.list[k].clone());
            }
            k += 1;
        }
        None
    }

    /// Case-insensitive lookup by date string: the first report whose folded
    /// date equals the folded query, or `ReportNotFound` carrying the query.
    pub fn find_report(&self, date: &str) -> (r: Result<Report, ReportError>)
        ensures
            match r {
                Ok(rep) => spec_find_date(self@, lower_of(date@)) matches Some(i) && rep@
                    == self@[i],
                Err(e) => spec_find_date(self@, lower_of(date@)) is None && (e matches
                ReportError::ReportNotFound(d) && d@ == date@),
            },
    {
        let x = lowercase(date);
        let n = self.list.len();
        let mut k: usize = 0;
        while k < n
            invariant
                0 <= k <= n,
                n == self.list.len(),
                x@ == lower_of(date@),
                spec_find_date(self@, lower_of(date@)) == spec_find_date_at(
                    self@,
                    lower_of(date@),
                    k as int,
                ),
            decreases n - k,
        {
            let folded = lowercase(self.list[k].date.as_str());
            if str_eq(folded.as_str(), x.as_str()) {
                return Ok(self.list[k].clone());
            }
            k += 1;
        }
        Err(ReportError::ReportNotFound(String::from_str(date)))
    }

    /// The position of the report carrying `id`.
    fn position_of_id(&self, id: i64) -> (r: Option<usize>)
        ensures
            match r {
                Some(i) => spec_find_rid(self@, id as int) == Some(i as int) && (i as int)
                    < self@.len(),
                None => spec_find_rid(self@, id as int) is None,
            },
    {
        let n = self.list.len();
        let mut k: usize = 0;
        while k < n
            invariant
                0 <= k <= n,
                n == self.list.len(),
                spec_find_rid(self@, id as int) == spec_find_rid_at(self@, id as int, k as int),
            decreases n - k,
        {
            if self.list[k].id == id {
                return Some(k);
            }
            k += 1;
        }
        None
    }

    /// Keyed insertion at the report's own id.
    fn store(&mut self, rep: Report)
        requires
            old(self).wf(),
        ensures
            final(self)@ == spec_rstore(old(self)@, rep@),
            final(self).wf(),
    {
        proof {
            lemma_find_rid_props(old(self)@, rep@.id, 0);
        }
        match self.position_of_id(rep.id) {
            Some(i) => {
                self.list.remove(i);
                self.list.insert(i, rep);
                proof {
                    let s = old(self)@;
                    let t = s.update(i as int, rep@);
                    assert(self@ =~= t);
                    assert(s[i as int].id == rep@.id);
                    assert forall|a: int, b: int| 0 <= a < b < t.len() implies (#[trigger] t[a]).id
                        != (#[trigger] t[b]).id by {
                        assert(s[a].id != s[b].id);
                        assert(t[a].id == s[a].id);
                        assert(t[b].id == s[b].id);
                    }
                }
            },
            None => {
                self.list.push(rep);
                proof {
                    let s = old(self)@;
                    let t = s.push(rep@);
                    assert(self@ =~= t);
                    assert forall|a: int, b: int| 0 <= a < b < t.len() implies (#[trigger] t[a]).id
                        != (#[trigger] t[b]).id by {
                        if b < s.len() {
                            assert(s[a].id != s[b].id);
                        } else {
                            assert(t[b] == rep@);
                            assert(s[a].id != rep@.id);
                        }
                    }
                }
            },
        }
    }

    /// The largest id in use.
    fn max_id(&self) -> (r: i64)
        requires
            self@.len() > 0,
        ensures
            r as int == spec_max_rid(self@),
    {
        let n = self.list.len();
        let mut m: i64 = self.list[0].id;
        let mut k: usize = 1;
        while k < n
            invariant
                1 <= k <= n,
                n == self.list.len(),
                n == self@.len(),
                m as int == spec_max_rid(self@.take(k as int)),
            decreases n - k,
        {
            proof {
                assert(self@.take(k as int + 1).drop_last() =~= self@.take(k as int));
                assert(self@.take(k as int + 1).last() == self@[k as int]);
            }
            if self.list[k].id > m {
                m = self.list[k].id;
            }
            k += 1;
        }
        proof {
            assert(self@.take(n as int) =~= self@);
        }
        m
    }

    /// Accumulates onto the report for the date, the rate times the quantity
    /// joining the income; or creates one, with the income taken verbatim on
    /// the load path and computed from the rate on the live path. The range
    /// premises are headroom: they keep every sum and product representable.
    pub fn add_or_update(&mut self, date: &str, quantity: i64, income: i64, id: i64, from_file: bool)
        requires
            old(self).wf(),
            !from_file ==> can_assign_rid(old(self)@),
            i64::MIN as int <= quantity as int * income as int <= i64::MAX as int,
            forall|j: int|
                0 <= j < old(self)@.len() ==> i64::MIN as int <= (#[trigger] old(self)@[j]).quantity
                    + quantity as int <= i64::MAX as int,
            forall|j: int|
                0 <= j < old(self)@.len() ==> i64::MIN as int <= (#[trigger] old(self)@[j]).income
                    + quantity as int * income as int <= i64::MAX as int,
        ensures
            final(self)@ == spec_report_add(
                old(self)@,
                date@,
                quantity as int,
                income as int,
                id as int,
                from_file,
            ),
            final(self).wf(),
    {
        match self.find_report(date) {
            Ok(report) => {
                proof {
                    lemma_find_date_props(old(self)@, lower_of(date@), 0);
                }
                let actual_income = quantity * income;
                self.store(
                    Report {
                        id: report.id,
                        date: report.date,
                        quantity: report.quantity + quantity,
                        income: report.income + actual_income,
                    },
                );
            },
            Err(_) => {
                let new_id: i64 = if from_file {
                    id
                } else if self.list.len() > 0 {
                    self.max_id() + 1
                } else {
                    0
                };
                let x: i64 = if from_file {
                    income
                } else {
                    quantity * income
                };
                self.store(Report { id: new_id, date: String::from_str(date), quantity, income: x });
            },
        }
    }

    /// All reports, in ascending id order.
    pub fn get_report_list(self) -> (r: Vec<Report>)
        ensures
            r@.len() == self@.len(),
            r@.map_values(|x: Report| x@).to_multiset() == self@.to_multiset(),
            sorted_by_rid(r@.map_values(|x: Report| x@)),
    {
        let mut out: Vec<Report> = Vec::new();
        let list = self.list;
        let n = list.len();
        let mut k: usize = 0;
        proof {
            assert(out@.map_values(|x: Report| x@) =~= Seq::<ReportModel>::empty());
            assert(self@.take(0) =~= Seq::<ReportModel>::empty());
            Seq::<ReportModel>::empty().to_multiset_ensures();
        }
        while k < n
            invariant
                0 <= k <= n,
                n == list.len(),
                self@ == list@.map_values(|x: Report| x@),
                out@.map_values(|x: Report| x@).to_multiset() == self@.take(k as int).to_multiset(),
                sorted_by_rid(out@.map_values(|x: Report| x@)),
            decreases n - k,
        {
            proof {
                self@.take(k as int).to_multiset_ensures();
                assert(self@.take(k as int + 1).drop_last() =~= self@.take(k as int));
                assert(self@.take(k as int).push(self@[k as int]) =~= self@.take(k as int + 1));
            }
            insert_sorted(&mut out, list[k].clone());
            k += 1;
        }
        proof {
            assert(self@.take(n as int) =~= self@);
            self@.to_multiset_ensures();
            out@.map_values(|x: Report| x@).to_multiset_ensures();
        }
        out
    }

    /// A string of `times` copies of `ch`, used to pad table columns.
    pub fn repeat_char(times: usize, ch: char) -> (r: String)
        ensures
            r@ == Seq::new(times as nat, |i: int| ch),
    {
        let mut s = String::new();
        let mut k: usize = 0;
        while k < times
            invariant
                0 <= k <= times,
                s@ == Seq::new(k as nat, |i: int| ch),
            decreases times - k,
        {
            push_char(&mut s, ch);
            proof {
                assert(s@ =~= Seq::new(k as nat + 1, |i: int| ch));
            }
            k += 1;
        }
        s
    }

    /// Whether a fresh live id still fits the machine range.
    pub fn can_take_new_id(&self) -> (r: bool)
        ensures
            r == can_assign_rid(self@),
    {
        if self.list.len() == 0 {
            true
        } else {
            self.max_id() < i64::MAX
        }
    }

    /// A copy of every report, in storage order.
    pub fn to_vec(&self) -> (r: Vec<Report>)
        ensures
            r@.map_values(|x: Report| x@) == self@,
    {
        let n = self.list.len();
        let mut out: Vec<Report> = Vec::new();
        let mut k: usize = 0;
        while k < n
            invariant
                0 <= k <= n,
                n == self.list.len(),
                out@.map_values(|x: Report| x@) =~= self@.take(k as int),
            decreases n - k,
        {
            let it = self.list[k].clone();
            proof {
                assert(it@ == self@[k as int]);
            }
            out.push(it);
            proof {
                assert(self@.take(k as int + 1) =~= self@.take(k as int).push(self@[k as int]));
                assert(out@.map_values(|x: Report| x@) =~= self@.take(k as int).push(
                    self@[k as int],
                ));
            }
            k += 1;
        }
        proof {
            assert(self@.take(n as int) =~= self@);
        }
        out
    }
}

/// Inserts a report into an id-sorted vector, keeping it sorted.
fn insert_sorted(v: &mut Vec<Report>, rep: Report)
    requires
        sorted_by_rid(old(v)@.map_values(|x: Report| x@)),
    ensures
        final(v)@.map_values(|x: Report| x@).to_multiset() == old(v)@.map_values(
            |x: Report| x@,
        ).to_multiset().insert(rep@),
        sorted_by_rid(final(v)@.map_values(|x: Report| x@)),
{
    let n = v.len();
    let mut p: usize = 0;
    while p < n && v[p].id <= rep.id
        invariant
            0 <= p <= n,
            n == v.len(),
            forall|j: int| 0 <= j < p ==> (#[trigger] v@[j])@.id <= rep@.id,
        decreases n - p,
    {
        p += 1;
    }
    proof {
        let s = v@.map_values(|x: Report| x@);
        if p < n {
            assert(s[p as int].id > rep@.id);
        }
    }
    v.insert(p, rep);
    proof {
        let m = |x: Report| x@;
        let s = old(v)@.map_values(m);
        let x = rep@;
        let t = final(v)@.map_values(m);
        assert(t =~= s.insert(p as int, x));
        lemma_insert_multiset(s, p as int, x);
        assert(t =~= s.take(p as int) + seq![x] + s.skip(p as int));
        assert forall|a: int, b: int| 0 <= a < b < t.len() implies (#[trigger] t[a]).id
            <= (#[trigger] t[b]).id by {
            assert(forall|q: int| 0 <= q < p ==> #[trigger] t[q] == s[q]);
            assert(t[p as int] == x);
            assert(forall|q: int| p < q < t.len() ==> #[trigger] t[q] == s[q - 1]);
            if a < p {
                assert(s[a].id <= x.id);
            }
            if b > p {
                assert(s[p as int].id <= s[b - 1].id);
                assert(x.id < s[b - 1].id);
            }
        }
    }
}

/// Inserting anywhere in a sequence adds exactly that element to its multiset.
proof fn lemma_insert_multiset<A>(s: Seq<A>, p: int, x: A)
    requires
        0 <= p <= s.len(),
    ensures
        s.insert(p, x).to_multiset() == s.to_multiset().insert(x),
{
    let pre = s.take(p);
    let post = s.skip(p);
    assert(s.insert(p, x) =~= pre + (seq![x] + post));
    assert(s =~= pre + post);
    lemma_multiset_commutative(pre, seq![x] + post);
    lemma_multiset_commutative(seq![x], post);
    lemma_multiset_commutative(pre, post);
    assert(seq![x] =~= Seq::<A>::empty().push(x));
    Seq::<A>::empty().to_multiset_ensures();
    assert(seq![x].to_multiset() =~= Multiset::<A>::empty().insert(x));
    assert(s.insert(p, x).to_multiset() =~= s.to_multiset().insert(x));
}

/// What can go wrong with a ledger operation.
#[derive(Debug, PartialEq)]
pub enum ReportError {
    ReportNotFound(String),
}

/// No lookup by id finds an id that no report carries.
pub proof fn lemma_find_rid_none(s: Seq<ReportModel>, id: int, k: int)
    requires
        0 <= k,
        forall|j: int| k <= j < s.len() ==> (#[trigger] s[j]).id != id,
    ensures
        spec_find_rid_at(s, id, k) is None,
    decreases s.len() - k,
{
    if k < s.len() {
        lemma_find_rid_none(s, id, k + 1);
    }
}

/// No lookup by date finds a folded date that no report carries.
pub proof fn lemma_find_date_none(s: Seq<ReportModel>, folded: Seq<char>, k: int)
    requires
        0 <= k,
        forall|j: int| k <= j < s.len() ==> lower_of((#[trigger] s[j]).date) != folded,
    ensures
        spec_find_date_at(s, folded, k) is None,
    decreases s.len() - k,
{
    if k < s.len() {
        lemma_find_date_none(s, folded, k + 1);
    }
}

/// Ledger accumulation: two live sales on one date, on an empty ledger,
/// leave a single report whose quantity is the sum of the quantities and
/// whose income is the sum of the two rate-times-quantity products.
pub proof fn lemma_ledger_accumulates(date: Seq<char>, q1: int, p1: int, q2: int, p2: int)
    ensures
        ({
            let l1 = spec_report_add(Seq::<ReportModel>::empty(), date, q1, p1, 0, false);
            let l2 = spec_report_add(l1, date, q2, p2, 0, false);
            &&& l1.len() == 1
            &&& l1[0] == ReportModel { id: 0, date, quantity: q1, income: q1 * p1 }
            &&& l2.len() == 1
            &&& l2[0] == ReportModel { id: 0, date, quantity: q1 + q2, income: q1 * p1 + q2 * p2 }
        }),
{
    let e = Seq::<ReportModel>::empty();
    let m1 = ReportModel { id: 0, date, quantity: q1, income: q1 * p1 };
    let l1 = spec_report_add(e, date, q1, p1, 0, false);
    assert(spec_find_date(e, lower_of(date)) is None);
    assert(spec_find_rid(e, 0) is None);
    assert(l1 =~= seq![m1]);
    let l2 = spec_report_add(l1, date, q2, p2, 0, false);
    assert(lower_of(l1[0].date) == lower_of(date));
    assert(spec_find_date(l1, lower_of(date)) == Some(0int));
    assert(spec_find_rid(l1, 0) == Some(0int));
    let m2 = ReportModel { id: 0, date, quantity: q1 + q2, income: q1 * p1 + q2 * p2 };
    assert(l2 =~= seq![m1].update(0, m2));
    assert(l2 =~= seq![m2]);
}

} // verus!
