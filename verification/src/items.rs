//! The inventory catalog: sellable items keyed by a numeric id, looked up by
//! case-folded name. New ids grow from the current maximum, so an id is never
//! reused while its item lives.

use vstd::prelude::*;
use vstd::multiset::Multiset;
use vstd::seq_lib::lemma_multiset_commutative;
use crate::text::{lower_of, lowercase, push_char, str_eq};

verus! {

broadcast use {vstd::seq_lib::group_seq_lib_default, vstd::multiset::group_multiset_axioms};

/// One sellable item.
#[derive(Debug, PartialEq)]
pub struct Item {
    pub id: i64,
    pub name: String,
    pub quantity: i64,
    pub price: i64,
}

/// The mathematical image of an item.
pub struct ItemModel {
    pub id: int,
    pub name: Seq<char>,
    pub quantity: int,
    pub price: int,
}

impl View for Item {
    type V = ItemModel;

    open spec fn view(&self) -> ItemModel {
        ItemModel {
            id: self.id as int,
            name: self.name@,
            quantity: self.quantity as int,
            price: self.price as int,
        }
    }
}

impl Clone for Item {
    /// An exact copy, field for field.
    fn clone(&self) -> (r: Item)
        ensures
            r@ == self@,
    {
        Item { id: self.id, name: self.name.clone(), quantity: self.quantity, price: self.price }
    }
}

/// The first position at or after `i` whose item's folded name is `folded`.
pub open spec fn spec_find_name_at(s: Seq<ItemModel>, folded: Seq<char>, i: int) -> Option<int>
    decreases s.len() - i,
{
    if i < 0 || i >= s.len() {
        None
    } else if lower_of(s[i].name) == folded {
        Some(i)
    } else {
        spec_find_name_at(s, folded, i + 1)
    }
}

/// The first position whose item's folded name is `folded`.
pub open spec fn spec_find_name(s: Seq<ItemModel>, folded: Seq<char>) -> Option<int> {
    spec_find_name_at(s, folded, 0)
}

/// The first position at or after `i` whose item has the id `id`.
pub open spec fn spec_find_id_at(s: Seq<ItemModel>, id: int, i: int) -> Option<int>
    decreases s.len() - i,
{
    if i < 0 || i >= s.len() {
        None
    } else if s[i].id == id {
        Some(i)
    } else {
        spec_find_id_at(s, id, i + 1)
    }
}

/// The first position whose item has the id `id`.
pub open spec fn spec_find_id(s: Seq<ItemModel>, id: int) -> Option<int> {
    spec_find_id_at(s, id, 0)
}

/// The largest id in a non-empty catalog.
pub open spec fn spec_max_id(s: Seq<ItemModel>) -> int
    decreases s.len(),
{
    if s.len() <= 1 {
        s[0].id
    } else if spec_max_id(s.drop_last()) >= s.last().id {
        spec_max_id(s.drop_last())
    } else {
        s.last().id
    }
}

/// The id a freshly created entry receives: one past the current maximum,
/// or zero in an empty collection.
pub open spec fn spec_new_id(s: Seq<ItemModel>) -> int {
    if s.len() == 0 {
        0
    } else {
        spec_max_id(s) + 1
    }
}

/// Keyed insertion: replaces the entry that carries `m.id`, or appends.
pub open spec fn spec_store(s: Seq<ItemModel>, m: ItemModel) -> Seq<ItemModel> {
    match spec_find_id(s, m.id) {
        Some(i) => s.update(i, m),
        None => s.push(m),
    }
}

/// What `add` leaves behind: the name is stored folded, the id is taken
/// verbatim on the load path and freshly assigned on the live path.
pub open spec fn spec_add(
    s: Seq<ItemModel>,
    folded_name: Seq<char>,
    quantity: int,
    price: int,
    id: int,
    from_file: bool,
) -> Seq<ItemModel> {
    let nid = if from_file {
        id
    } else {
        spec_new_id(s)
    };
    spec_store(s, ItemModel { id: nid, name: folded_name, quantity, price })
}

/// What `add_or_update` leaves behind: quantity and price replaced under the
/// existing id, or a fresh live entry.
pub open spec fn spec_add_or_update(
    s: Seq<ItemModel>,
    name: Seq<char>,
    quantity: int,
    price: int,
) -> Seq<ItemModel> {
    match spec_find_name(s, lower_of(name)) {
        Some(i) => spec_store(
            s,
            ItemModel { id: s[i].id, name: s[i].name, quantity, price },
        ),
        None => spec_add(s, lower_of(name), quantity, price, 0, false),
    }
}

/// Ids are pairwise distinct.
pub open spec fn wf_items(s: Seq<ItemModel>) -> bool {
    forall|i: int, j: int| 0 <= i < j < s.len() ==> #[trigger] s[i].id != #[trigger] s[j].id
}

/// A fresh id can be assigned without leaving the machine range.
pub open spec fn can_assign_id(s: Seq<ItemModel>) -> bool {
    s.len() == 0 || spec_max_id(s) < i64::MAX as int
}

/// Ascending id order.
pub open spec fn sorted_by_id(s: Seq<ItemModel>) -> bool {
    forall|i: int, j: int| 0 <= i < j < s.len() ==> #[trigger] s[i].id <= #[trigger] s[j].id
}

/// In a catalog with distinct ids, the entry holding a present id is found
/// exactly where it stands.
pub proof fn lemma_find_own_id(s: Seq<ItemModel>, i: int)
    requires
        wf_items(s),
        0 <= i < s.len(),
    ensures
        spec_find_id(s, s[i].id) == Some(i),
{
    lemma_find_id_skips(s, s[i].id, i, 0);
}

proof fn lemma_find_id_skips(s: Seq<ItemModel>, id: int, i: int, k: int)
    requires
        wf_items(s),
        0 <= k <= i < s.len(),
        s[i].id == id,
    ensures
        spec_find_id_at(s, id, k) == Some(i),
    decreases i - k,
{
    if k < i {
        assert(s[k].id != s[i].id);
        lemma_find_id_skips(s, id, i, k + 1);
    }
}

/// Where a lookup by id lands: on an entry carrying that id, past every
/// earlier entry; or nowhere, when no entry carries it.
pub proof fn lemma_find_id_props(s: Seq<ItemModel>, id: int, k: int)
    requires
        0 <= k,
    ensures
        spec_find_id_at(s, id, k) matches Some(i) ==> k <= i < s.len() && s[i].id == id,
        spec_find_id_at(s, id, k) is None ==> forall|j: int|
            k <= j < s.len() ==> (#[trigger] s[j]).id != id,
    decreases s.len() - k,
{
    if k < s.len() && s[k].id != id {
        lemma_find_id_props(s, id, k + 1);
    }
}

/// Where a lookup by folded name lands, in the same way.
pub proof fn lemma_find_name_props(s: Seq<ItemModel>, folded: Seq<char>, k: int)
    requires
        0 <= k,
    ensures
        spec_find_name_at(s, folded, k) matches Some(i) ==> k <= i < s.len() && lower_of(s[i].name)
            == folded,
        spec_find_name_at(s, folded, k) is None ==> forall|j: int|
            k <= j < s.len() ==> lower_of((#[trigger] s[j]).name) != folded,
    decreases s.len() - k,
{
    if k < s.len() && lower_of(s[k].name) != folded {
        lemma_find_name_props(s, folded, k + 1);
    }
}

/// The maximum dominates every id.
pub proof fn lemma_max_id_ge(s: Seq<ItemModel>, i: int)
    requires
        0 <= i < s.len(),
    ensures
        s[i].id <= spec_max_id(s),
    decreases s.len(),
{
    if s.len() > 1 && i < s.len() - 1 {
        assert(s.drop_last()[i] == s[i]);
        lemma_max_id_ge(s.drop_last(), i);
    }
}

/// The catalog.
pub struct Items {
    list: Vec<Item>,
}

impl View for Items {
    type V = Seq<ItemModel>;

    closed spec fn view(&self) -> Seq<ItemModel> {
        self.list@.map_values(|x: Item| x@)
    }
}

impl Items {
    /// Distinct ids throughout.
    pub open spec fn wf(&self) -> bool {
        wf_items(self@)
    }

    /// An empty catalog.
    pub fn new() -> (r: Items)
        ensures
            r@ == Seq::<ItemModel>::empty(),
            r.wf(),
    {
        let r = Items { list: Vec::new() };
        proof {
            assert(r@ =~= Seq::<ItemModel>::empty());
        }
        r
    }

    /// The entry under the given id, if any.
    pub fn find_by_id(&self, id: i64) -> (r: Option<Item>)
        ensures
            match r {
                Some(item) => spec_find_id(self@, id as int) matches Some(i) && item@ == self@[i],
                None => spec_find_id(self@, id as int) is None,
            },
    {
        let n = self.list.len();
        let mut k: usize = 0;
        while k < n
            invariant
                0 <= k <= n,
                n == self.list.len(),
                spec_find_id(self@, id as int) == spec_find_id_at(self@, id as int, k as int),
            decreases n - k,
        {
            if self.list[k].id == id {
                return Some(self.list[k].clone());
            }
            k += 1;
        }
        None
    }

    /// Case-insensitive lookup by name: the first entry whose folded stored
    /// name equals the folded query, or `ItemNotFound` carrying the query.
    pub fn find_item(&self, name: &str) -> (r: Result<Item, ItemError>)
        ensures
            match r {
                Ok(item) => spec_find_name(self@, lower_of(name@)) matches Some(i) && item@
                    == self@[i],
                Err(e) => spec_find_name(self@, lower_of(name@)) is None && (e matches
                ItemError::ItemNotFound(n) && n@ == name@),
            },
    {
        let x = lowercase(name);
        let n = self.list.len();
        let mut k: usize = 0;
        while k < n
            invariant
                0 <= k <= n,
                n == self.list.len(),
                x@ == lower_of(name@),
                spec_find_name(self@, lower_of(name@)) == spec_find_name_at(
                    self@,
                    lower_of(name@),
                    k as int,
                ),
            decreases n - k,
        {
            let folded = lowercase(self.list[k].name.as_str());
            if str_eq(folded.as_str(), x.as_str()) {
                return Ok(self.list[k].clone());
            }
            k += 1;
        }
        Err(ItemError::ItemNotFound(String::from_str(name)))
    }

    /// The position of the entry carrying `id`.
    fn position_of_id(&self, id: i64) -> (r: Option<usize>)
        ensures
            match r {
                Some(i) => spec_find_id(self@, id as int) == Some(i as int) && (i as int)
                    < self@.len(),
                None => spec_find_id(self@, id as int) is None,
            },
    {
        let n = self.list.len();
        let mut k: usize = 0;
        while k < n
            invariant
                0 <= k <= n,
                n == self.list.len(),
                spec_find_id(self@, id as int) == spec_find_id_at(self@, id as int, k as int),
            decreases n - k,
        {
            if self.list[k].id == id {
                return Some(k);
            }
            k += 1;
        }
        None
    }

    /// Keyed insertion at the item's own id.
    fn store(&mut self, item: Item)
        requires
            old(self).wf(),
        ensures
            final(self)@ == spec_store(old(self)@, item@),
            final(self).wf(),
    {
        proof {
            lemma_find_id_props(old(self)@, item@.id, 0);
        }
        match self.position_of_id(item.id) {
            Some(i) => {
                self.list.remove(i);
                self.list.insert(i, item);
                proof {
                    let s = old(self)@;
                    let t = s.update(i as int, item@);
                    assert(self@ =~= t);
                    assert(s[i as int].id == item@.id);
                    assert forall|a: int, b: int| 0 <= a < b < t.len() implies (#[trigger] t[a]).id
                        != (#[trigger] t[b]).id by {
                        assert(s[a].id != s[b].id);
                        assert(t[a].id == s[a].id);
                        assert(t[b].id == s[b].id);
                    }
                }
            },
            None => {
                self.list.push(item);
                proof {
                    let s = old(self)@;
                    let t = s.push(item@);
                    assert(self@ =~= t);
                    assert forall|a: int, b: int| 0 <= a < b < t.len() implies (#[trigger] t[a]).id
                        != (#[trigger] t[b]).id by {
                        if b < s.len() {
                            assert(s[a].id != s[b].id);
                        } else {
                            assert(t[b] == item@);
                            assert(s[a].id != item@.id);
                        }
                    }
                }
            },
        }
    }

    /// The largest id in use.
    fn max_id(&self) -> (r: i64)
        requires
            self@.len() > 0,
        ensures
            r as int == spec_max_id(self@),
    {
        let n = self.list.len();
        let mut m: i64 = self.list[0].id;
        let mut k: usize = 1;
        while k < n
            invariant
                1 <= k <= n,
                n == self.list.len(),
                n == self@.len(),
                m as int == spec_max_id(self@.take(k as int)),
            decreases n - k,
        {
            proof {
                assert(self@.take(k as int + 1).drop_last() =~= self@.take(k as int));
                assert(self@.take(k as int + 1).last() == self@[k as int]);
            }
            if self.list[k].id > m {
                m = self.list[k].id;
            }
            k += 1;
        }
        proof {
            assert(self@.take(n as int) =~= self@);
        }
        m
    }

    /// Stores the name folded; takes the id verbatim when loading from a
    /// snapshot, otherwise assigns one past the current maximum (zero when
    /// empty), replacing any entry already under that id.
    pub fn add(&mut self, name: &str, quantity: i64, price: i64, id: i64, from_file: bool)
        requires
            old(self).wf(),
            !from_file ==> can_assign_id(old(self)@),
        ensures
            final(self)@ == spec_add(
                old(self)@,
                lower_of(name@),
                quantity as int,
                price as int,
                id as int,
                from_file,
            ),
            final(self).wf(),
    {
        let new_id: i64 = if from_file {
            id
        } else if self.list.len() > 0 {
            self.max_id() + 1
        } else {
            0
        };
        let folded = lowercase(name);
        self.store(Item { id: new_id, name: folded, quantity, price });
    }

    /// Unconditional upsert at the given id; the name is stored verbatim.
    pub fn update(&mut self, id: i64, name: &str, quantity: i64, price: i64)
        requires
            old(self).wf(),
        ensures
            final(self)@ == spec_store(
                old(self)@,
                ItemModel { id: id as int, name: name@, quantity: quantity as int, price: price as int },
            ),
            final(self).wf(),
    {
        self.store(Item { id, name: String::from_str(name), quantity, price });
    }

    /// Replaces quantity and price under an existing name, or adds a fresh
    /// live entry for an unknown one.
    pub fn add_or_update(&mut self, name: &str, quantity: i64, price: i64)
        requires
            old(self).wf(),
            can_assign_id(old(self)@),
        ensures
            final(self)@ == spec_add_or_update(old(self)@, name@, quantity as int, price as int),
            final(self).wf(),
    {
        match self.find_item(name) {
            Ok(item) => {
                self.update(item.id, item.name.as_str(), quantity, price);
            },
            Err(_) => {
                self.add(name, quantity, price, 0, false);
            },
        }
    }

    /// A purchase: on sufficient stock, decrements the named item's quantity
    /// and returns its unit price; otherwise reports the shortfall or the
    /// missing name, leaving the catalog unchanged. The premise is headroom:
    /// no stock may leave the machine range when the quantity is subtracted.
    pub fn buy(&mut self, name: &str, quantity: i64) -> (r: Result<i64, ItemError>)
        requires
            old(self).wf(),
            forall|j: int|
                0 <= j < old(self)@.len() ==> #[trigger] old(self)@[j].quantity - quantity
                    <= i64::MAX as int,
        ensures
            final(self).wf(),
            spec_find_name(old(self)@, lower_of(name@)) is None ==> final(self)@ == old(self)@ && (
            r matches Err(ItemError::ItemNotFound(n)) && n@ == name@),
            spec_find_name(old(self)@, lower_of(name@)) matches Some(i) ==> ({
                &&& old(self)@[i].quantity >= quantity as int ==> (r matches Ok(p) && p as int
                    == old(self)@[i].price && final(self)@ == old(self)@.update(
                    i,
                    ItemModel {
                        id: old(self)@[i].id,
                        name: old(self)@[i].name,
                        quantity: old(self)@[i].quantity - quantity as int,
                        price: old(self)@[i].price,
                    },
                ))
                &&& old(self)@[i].quantity < quantity as int ==> final(self)@ == old(self)@ && (
                r matches Err(ItemError::NotEnoughStock(a, b)) && a as int
                    == old(self)@[i].quantity && b == quantity)
            }),
    {
        match self.find_item(name) {
            Ok(e) => {
                let ghost i = spec_find_name(old(self)@, lower_of(name@))->Some_0;
                proof {
                    lemma_find_name_props(old(self)@, lower_of(name@), 0);
                }
                if e.quantity >= quantity {
                    proof {
                        lemma_find_own_id(old(self)@, i);
                    }
                    self.update(e.id, e.name.as_str(), e.quantity - quantity, e.price);
                    proof {
                        assert(self@ =~= old(self)@.update(
                            i,
                            ItemModel {
                                id: old(self)@[i].id,
                                name: old(self)@[i].name,
                                quantity: old(self)@[i].quantity - quantity as int,
                                price: old(self)@[i].price,
                            },
                        ));
                    }
                    Ok(e.price)
                } else {
                    Err(ItemError::NotEnoughStock(e.quantity, quantity))
                }
            },
            Err(_) => Err(ItemError::ItemNotFound(String::from_str(name))),
        }
    }

    /// Removes the entry found under the name; `ItemNotFound` otherwise.
    pub fn delete(&mut self, name: &str) -> (r: Result<i32, ItemError>)
        requires
            old(self).wf(),
        ensures
            final(self).wf(),
            spec_find_name(old(self)@, lower_of(name@)) is None ==> final(self)@ == old(self)@ && (
            r matches Err(ItemError::ItemNotFound(n)) && n@ == name@),
            spec_find_name(old(self)@, lower_of(name@)) matches Some(i) ==> r == Ok::<
                i32,
                ItemError,
            >(1) && final(self)@ == old(self)@.remove(i),
    {
        match self.find_item(name) {
            Ok(x) => {
                let ghost i = spec_find_name(old(self)@, lower_of(name@))->Some_0;
                proof {
                    lemma_find_name_props(old(self)@, lower_of(name@), 0);
                    lemma_find_own_id(old(self)@, i);
                }
                match self.position_of_id(x.id) {
                    Some(p) => {
                        self.list.remove(p);
                        proof {
                            assert(self@ =~= old(self)@.remove(i));
                        }
                        Ok(1)
                    },
                    None => {
                        // Unreachable: the id of a found item is present.
                        proof {
                            assert(false);
                        }
                        Err(ItemError::ItemNotFound(String::from_str(name)))
                    },
                }
            },
            Err(_) => Err(ItemError::ItemNotFound(String::from_str(name))),
        }
    }

    /// All items, in ascending id order: the deterministic face of the
    /// catalog, used for display and for serialization.
    pub fn get_item_list(self) -> (r: Vec<Item>)
        ensures
            r@.len() == self@.len(),
            r@.map_values(|x: Item| x@).to_multiset() == self@.to_multiset(),
            sorted_by_id(r@.map_values(|x: Item| x@)),
    {
        let mut out: Vec<Item> = Vec::new();
        let list = self.list;
        let n = list.len();
        let mut k: usize = 0;
        proof {
            assert(out@.map_values(|x: Item| x@) =~= Seq::<ItemModel>::empty());
            assert(self@.take(0) =~= Seq::<ItemModel>::empty());
            Seq::<ItemModel>::empty().to_multiset_ensures();
        }
        while k < n
            invariant
                0 <= k <= n,
                n == list.len(),
                self@ == list@.map_values(|x: Item| x@),
                out@.map_values(|x: Item| x@).to_multiset() == self@.take(k as int).to_multiset(),
                sorted_by_id(out@.map_values(|x: Item| x@)),
            decreases n - k,
        {
            proof {
                self@.take(k as int).to_multiset_ensures();
                assert(self@.take(k as int + 1).drop_last() =~= self@.take(k as int));
                assert(self@.take(k as int).push(self@[k as int]) =~= self@.take(k as int + 1));
            }
            insert_sorted(&mut out, list[k].clone());
            k += 1;
        }
        proof {
            assert(self@.take(n as int) =~= self@);
            self@.to_multiset_ensures();
            out@.map_values(|x: Item| x@).to_multiset_ensures();
        }
        out
    }

    /// A string of `times` copies of `ch`, used to pad table columns.
    pub fn repeat_char(times: usize, ch: char) -> (r: String)
        ensures
            r@ == Seq::new(times as nat, |i: int| ch),
    {
        let mut s = String::new();
        let mut k: usize = 0;
        while k < times
            invariant
                0 <= k <= times,
                s@ == Seq::new(k as nat, |i: int| ch),
            decreases times - k,
        {
            push_char(&mut s, ch);
            proof {
                assert(s@ =~= Seq::new(k as nat + 1, |i: int| ch));
            }
            k += 1;
        }
        s
    }

    /// Whether a fresh live id still fits the machine range.
    pub fn can_take_new_id(&self) -> (r: bool)
        ensures
            r == can_assign_id(self@),
    {
        if self.list.len() == 0 {
            true
        } else {
            self.max_id() < i64::MAX
        }
    }

    /// A copy of every entry, in storage order.
    pub fn to_vec(&self) -> (r: Vec<Item>)
        ensures
            r@.map_values(|x: Item| x@) == self@,
    {
        let n = self.list.len();
        let mut out: Vec<Item> = Vec::new();
        let mut k: usize = 0;
        while k < n
            invariant
                0 <= k <= n,
                n == self.list.len(),
                out@.map_values(|x: Item| x@) =~= self@.take(k as int),
            decreases n - k,
        {
            let it = self.list[k].clone();
            proof {
                assert(it@ == self@[k as int]);
            }
            out.push(it);
            proof {
                assert(self@.take(k as int + 1) =~= self@.take(k as int).push(self@[k as int]));
                assert(out@.map_values(|x: Item| x@) =~= self@.take(k as int).push(
                    self@[k as int],
                ));
            }
            k += 1;
        }
        proof {
            assert(self@.take(n as int) =~= self@);
        }
        out
    }
}

/// Inserts an item into an id-sorted vector, keeping it sorted.
fn insert_sorted(v: &mut Vec<Item>, item: Item)
    requires
        sorted_by_id(old(v)@.map_values(|x: Item| x@)),
    ensures
        final(v)@.map_values(|x: Item| x@).to_multiset() == old(v)@.map_values(
            |x: Item| x@,
        ).to_multiset().insert(item@),
        sorted_by_id(final(v)@.map_values(|x: Item| x@)),
{
    let n = v.len();
    let mut p: usize = 0;
    while p < n && v[p].id <= item.id
        invariant
            0 <= p <= n,
            n == v.len(),
            forall|j: int| 0 <= j < p ==> (#[trigger] v@[j])@.id <= item@.id,
        decreases n - p,
    {
        p += 1;
    }
    proof {
        let s = v@.map_values(|x: Item| x@);
        if p < n {
            assert(s[p as int].id > item@.id);
        }
    }
    v.insert(p, item);
    proof {
        let m = |x: Item| x@;
        let s = old(v)@.map_values(m);
        let x = item@;
        let t = final(v)@.map_values(m);
        assert(t =~= s.insert(p as int, x));
        lemma_insert_multiset(s, p as int, x);
        assert(t =~= s.take(p as int) + seq![x] + s.skip(p as int));
        assert forall|a: int, b: int| 0 <= a < b < t.len() implies (#[trigger] t[a]).id
            <= (#[trigger] t[b]).id by {
            assert(forall|q: int| 0 <= q < p ==> #[trigger] t[q] == s[q]);
            assert(t[p as int] == x);
            assert(forall|q: int| p < q < t.len() ==> #[trigger] t[q] == s[q - 1]);
            if a < p {
                assert(s[a].id <= x.id);
            }
            if b > p {
                assert(s[p as int].id <= s[b - 1].id);
                assert(x.id < s[b - 1].id);
            }
        }
    }
}

/// Inserting anywhere in a sequence adds exactly that element to its multiset.
proof fn lemma_insert_multiset<A>(s: Seq<A>, p: int, x: A)
    requires
        0 <= p <= s.len(),
    ensures
        s.insert(p, x).to_multiset() == s.to_multiset().insert(x),
{
    let pre = s.take(p);
    let post = s.skip(p);
    assert(s.insert(p, x) =~= pre + (seq![x] + post));
    assert(s =~= pre + post);
    lemma_multiset_commutative(pre, seq![x] + post);
    lemma_multiset_commutative(seq![x], post);
    lemma_multiset_commutative(pre, post);
    assert(seq![x] =~= Seq::<A>::empty().push(x));
    Seq::<A>::empty().to_multiset_ensures();
    assert(seq![x].to_multiset() =~= Multiset::<A>::empty().insert(x));
    assert(s.insert(p, x).to_multiset() =~= s.to_multiset().insert(x));
}

/// What can go wrong with a catalog operation.
#[derive(Debug, PartialEq)]
pub enum ItemError {
    ItemNotFound(String),
    NotEnoughStock(i64, i64),
}

/// No lookup by id finds an id that no entry carries.
pub proof fn lemma_find_id_none(s: Seq<ItemModel>, id: int, k: int)
    requires
        0 <= k,
        forall|j: int| k <= j < s.len() ==> (#[trigger] s[j]).id != id,
    ensures
        spec_find_id_at(s, id, k) is None,
    decreases s.len() - k,
{
    if k < s.len() {
        lemma_find_id_none(s, id, k + 1);
    }
}

/// No lookup by name finds a folded name that no entry carries.
pub proof fn lemma_find_name_none(s: Seq<ItemModel>, folded: Seq<char>, k: int)
    requires
        0 <= k,
        forall|j: int| k <= j < s.len() ==> lower_of((#[trigger] s[j]).name) != folded,
    ensures
        spec_find_name_at(s, folded, k) is None,
    decreases s.len() - k,
{
    if k < s.len() {
        lemma_find_name_none(s, folded, k + 1);
    }
}

/// The maximum of a non-empty catalog is one of its ids.
pub proof fn lemma_max_id_member(s: Seq<ItemModel>)
    requires
        s.len() > 0,
    ensures
        exists|k: int| 0 <= k < s.len() && (#[trigger] s[k]).id == spec_max_id(s),
    decreases s.len(),
{
    if s.len() == 1 {
        assert(s[0].id == spec_max_id(s));
    } else if spec_max_id(s.drop_last()) >= s.last().id {
        lemma_max_id_member(s.drop_last());
        let k = choose|k: int|
            0 <= k < s.drop_last().len() && (#[trigger] s.drop_last()[k]).id == spec_max_id(
                s.drop_last(),
            );
        assert(s[k].id == spec_max_id(s));
    } else {
        assert(s[s.len() - 1].id == spec_max_id(s));
    }
}

/// Sequential growth: a live `add` to a catalog whose ids are exactly the
/// positions appends a fresh entry whose id is the next position. With the
/// sorted-output law below, this is why ids come out strictly ascending in
/// insertion order when a catalog grows live from empty.
pub proof fn lemma_sequential_add_ids(s: Seq<ItemModel>, name: Seq<char>, q: int, p: int)
    requires
        forall|j: int| 0 <= j < s.len() ==> (#[trigger] s[j]).id == j,
    ensures
        spec_add(s, name, q, p, 0, false) == s.push(
            ItemModel { id: s.len() as int, name, quantity: q, price: p },
        ),
        forall|j: int|
            0 <= j < spec_add(s, name, q, p, 0, false).len() ==> (#[trigger] spec_add(
                s,
                name,
                q,
                p,
                0,
                false,
            )[j]).id == j,
{
    let n = s.len() as int;
    if s.len() == 0 {
        lemma_find_id_none(s, 0, 0);
        assert(spec_add(s, name, q, p, 0, false) =~= s.push(
            ItemModel { id: 0, name, quantity: q, price: p },
        ));
    } else {
        lemma_max_id_member(s);
        let k = choose|k: int| 0 <= k < s.len() && (#[trigger] s[k]).id == spec_max_id(s);
        lemma_max_id_ge(s, n - 1);
        assert(spec_max_id(s) == n - 1);
        assert(forall|j: int| 0 <= j < s.len() ==> (#[trigger] s[j]).id != n);
        lemma_find_id_none(s, n, 0);
    }
}

/// A sorted permutation of a strictly id-sorted catalog is that catalog:
/// `get_item_list` hands back exactly what distinct, ascending ids dictate.
pub proof fn lemma_sorted_unique(s: Seq<ItemModel>, r: Seq<ItemModel>)
    requires
        wf_items(s),
        sorted_by_id(s),
        sorted_by_id(r),
        r.to_multiset() == s.to_multiset(),
    ensures
        r == s,
    decreases s.len(),
{
    s.to_multiset_ensures();
    r.to_multiset_ensures();
    if s.len() == 0 {
        assert(r =~= s);
    } else {
        let x = s.last();
        assert(s.contains(x));
        assert(r.to_multiset().count(x) > 0);
        assert(r.contains(x));
        let ri = choose|j: int| 0 <= j < r.len() && r[j] == x;
        // The last of r carries the largest id of all, so it is x itself.
        assert(r.last().id >= x.id);
        assert(s.contains(r.last())) by {
            assert(s.to_multiset().count(r.last()) > 0);
        }
        let si = choose|j: int| 0 <= j < s.len() && s[j] == r.last();
        assert(s[si].id <= x.id);
        assert(si == s.len() - 1) by {
            if si < s.len() - 1 {
                assert(s[si].id != x.id);
            }
        }
        assert(r.last() == x);
        let s1 = s.drop_last();
        let r1 = r.drop_last();
        assert(s =~= s1.push(x));
        assert(r =~= r1.push(x));
        s1.to_multiset_ensures();
        r1.to_multiset_ensures();
        assert(s1.to_multiset().insert(x) =~= r1.to_multiset().insert(x));
        assert forall|a: ItemModel| #[trigger] s1.to_multiset().count(a) == r1.to_multiset().count(
            a,
        ) by {
            vstd::multiset::lemma_insert_increases_count_by_1(s1.to_multiset(), x);
            vstd::multiset::lemma_insert_increases_count_by_1(r1.to_multiset(), x);
            if a != x {
                vstd::multiset::lemma_insert_other_elements_unchanged(s1.to_multiset(), x, a);
                vstd::multiset::lemma_insert_other_elements_unchanged(r1.to_multiset(), x, a);
            }
            assert(s1.to_multiset().insert(x).count(a) == r1.to_multiset().insert(x).count(a));
        }
        assert(s1.to_multiset() =~= r1.to_multiset());
        lemma_sorted_unique(s1, r1);
    }
}

/// Sequential growth, listed: a catalog whose ids are exactly the positions
/// is handed back unchanged by any id-sorted permutation, its ids strictly
/// ascending in insertion order.
pub proof fn lemma_sequential_list_order(s: Seq<ItemModel>, r: Seq<ItemModel>)
    requires
        forall|i: int| 0 <= i < s.len() ==> (#[trigger] s[i]).id == i,
        sorted_by_id(r),
        r.to_multiset() == s.to_multiset(),
    ensures
        r == s,
        forall|i: int, j: int| 0 <= i < j < r.len() ==> #[trigger] r[i].id < #[trigger] r[j].id,
{
    assert(wf_items(s));
    assert(sorted_by_id(s));
    lemma_sorted_unique(s, r);
}

/// Case-insensitive identity: two queries with one folded form resolve to
/// the same entry, found or missing alike.
pub proof fn lemma_find_case_insensitive(s: Seq<ItemModel>, a: Seq<char>, b: Seq<char>)
    requires
        lower_of(a) == lower_of(b),
    ensures
        spec_find_name(s, lower_of(a)) == spec_find_name(s, lower_of(b)),
{
}

/// Deleting a name frees its lookup: where folded names are unique, the
/// entry found under a name leaves no other entry for that name behind,
/// and every other entry stands as it was.
pub proof fn lemma_delete_frees_lookup(s: Seq<ItemModel>, folded: Seq<char>)
    requires
        forall|i: int, j: int|
            0 <= i < j < s.len() ==> lower_of((#[trigger] s[i]).name) != lower_of(
                (#[trigger] s[j]).name,
            ),
        spec_find_name(s, folded) is Some,
    ensures
        spec_find_name(s.remove(spec_find_name(s, folded)->Some_0), folded) is None,
        s.remove(spec_find_name(s, folded)->Some_0).len() == s.len() - 1,
        forall|j: int|
            0 <= j < spec_find_name(s, folded)->Some_0 ==> #[trigger] s.remove(
                spec_find_name(s, folded)->Some_0,
            )[j] == s[j],
        forall|j: int|
            spec_find_name(s, folded)->Some_0 <= j < s.len() - 1 ==> #[trigger] s.remove(
                spec_find_name(s, folded)->Some_0,
            )[j] == s[j + 1],
{
    let i = spec_find_name(s, folded)->Some_0;
    lemma_find_name_props(s, folded, 0);
    let t = s.remove(i);
    assert forall|j: int| 0 <= j < t.len() implies lower_of((#[trigger] t[j]).name) != folded by {
        if j < i {
            assert(t[j] == s[j]);
            assert(lower_of(s[j].name) != lower_of(s[i].name));
        } else {
            assert(t[j] == s[j + 1]);
            assert(lower_of(s[j + 1].name) != lower_of(s[i].name));
        }
    }
    lemma_find_name_none(t, folded, 0);
}

} // verus!
