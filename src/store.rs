//! The storage engine: bundles and items kept in listing order, with
//! insert-or-ignore, status updates and statistics recomputed from item state.
use vstd::prelude::*;
use crate::models::{
    bundle_views, copy_opt_text, copy_text, is_known_status, is_valid_status, item_views,
    status_collected, status_delivered, Bundle, BundleView, Item, ItemView, ProgressStats,
    StorageError,
};
use crate::order::{compare_text, lemma_text_lt_asym, lemma_text_lt_trans, text_lt};

verus! {

/// Bundles are listed by room, then name, then key.
pub open spec fn bundle_before(x: BundleView, y: BundleView) -> bool {
    text_lt(x.room, y.room) || (x.room == y.room && (text_lt(x.name, y.name) || (x.name == y.name
        && text_lt(x.id, y.id))))
}

/// Items are listed by name, then key.
pub open spec fn item_before(x: ItemView, y: ItemView) -> bool {
    text_lt(x.name, y.name) || (x.name == y.name && text_lt(x.id, y.id))
}

pub proof fn lemma_bundle_before_trans(x: BundleView, y: BundleView, z: BundleView)
    requires
        bundle_before(x, y),
        bundle_before(y, z),
    ensures
        bundle_before(x, z),
{
    if text_lt(x.room, y.room) && text_lt(y.room, z.room) {
        lemma_text_lt_trans(x.room, y.room, z.room);
    }
    if x.room == y.room && y.room == z.room {
        if text_lt(x.name, y.name) && text_lt(y.name, z.name) {
            lemma_text_lt_trans(x.name, y.name, z.name);
        }
        if x.name == y.name && y.name == z.name {
            lemma_text_lt_trans(x.id, y.id, z.id);
        }
    }
}

pub proof fn lemma_item_before_trans(x: ItemView, y: ItemView, z: ItemView)
    requires
        item_before(x, y),
        item_before(y, z),
    ensures
        item_before(x, z),
{
    if text_lt(x.name, y.name) && text_lt(y.name, z.name) {
        lemma_text_lt_trans(x.name, y.name, z.name);
    }
    if x.name == y.name && y.name == z.name {
        lemma_text_lt_trans(x.id, y.id, z.id);
    }
}

/// Whether `x` is listed before `y`; never both ways, and keys differ when true.
fn bundle_precedes(x: &Bundle, y: &Bundle) -> (r: bool)
    ensures
        r == bundle_before(x@, y@),
        !r ==> x@.id == y@.id || bundle_before(y@, x@),
{
    let c = compare_text(&x.room, &y.room);
    if c != 0 {
        return c < 0;
    }
    let c = compare_text(&x.name, &y.name);
    if c != 0 {
        return c < 0;
    }
    compare_text(&x.id, &y.id) < 0
}

fn item_precedes(x: &Item, y: &Item) -> (r: bool)
    ensures
        r == item_before(x@, y@),
        !r ==> x@.id == y@.id || item_before(y@, x@),
{
    let c = compare_text(&x.name, &y.name);
    if c != 0 {
        return c < 0;
    }
    compare_text(&x.id, &y.id) < 0
}

pub open spec fn has_bundle_id(bundles: Seq<BundleView>, id: Seq<char>) -> bool {
    exists|i: int| 0 <= i < bundles.len() && bundles[i].id == id
}

pub open spec fn has_item_id(items: Seq<ItemView>, id: Seq<char>) -> bool {
    exists|i: int| 0 <= i < items.len() && items[i].id == id
}

/// The first position whose bundle is listed after `row`.
fn bundle_slot(bundles: &Vec<Bundle>, row: &Bundle) -> (p: usize)
    requires
        forall|k: int| 0 <= k < bundles@.len() ==> bundles@[k]@.id != row@.id,
    ensures
        p <= bundles@.len(),
        forall|k: int| 0 <= k < p ==> bundle_before(bundles@[k]@, row@),
        p < bundles@.len() ==> bundle_before(row@, bundles@[p as int]@),
{
    let mut p: usize = 0;
    while p < bundles.len()
        invariant
            p <= bundles@.len(),
            forall|k: int| 0 <= k < p ==> bundle_before(bundles@[k]@, row@),
            forall|k: int| 0 <= k < bundles@.len() ==> bundles@[k]@.id != row@.id,
        decreases bundles@.len() - p,
    {
        if bundle_precedes(row, &bundles[p]) {
            return p;
        }
        p += 1;
    }
    p
}

/// The first position whose item is listed after `row`.
fn item_slot(items: &Vec<Item>, row: &Item) -> (p: usize)
    requires
        forall|k: int| 0 <= k < items@.len() ==> items@[k]@.id != row@.id,
    ensures
        p <= items@.len(),
        forall|k: int| 0 <= k < p ==> item_before(items@[k]@, row@),
        p < items@.len() ==> item_before(row@, items@[p as int]@),
{
    let mut p: usize = 0;
    while p < items.len()
        invariant
            p <= items@.len(),
            forall|k: int| 0 <= k < p ==> item_before(items@[k]@, row@),
            forall|k: int| 0 <= k < items@.len() ==> items@[k]@.id != row@.id,
        decreases items@.len() - p,
    {
        if item_precedes(row, &items[p]) {
            return p;
        }
        p += 1;
    }
    p
}

/// The items of one bundle, in listing order.
pub open spec fn items_of(items: Seq<ItemView>, bundle_id: Seq<char>) -> Seq<ItemView> {
    items.filter(|it: ItemView| it.bundle_id == bundle_id)
}

/// A bundle as listed: its stored fields with its items attached.
pub open spec fn with_items(b: BundleView, items: Seq<ItemView>) -> BundleView {
    BundleView { items: Some(items_of(items, b.id)), ..b }
}

/// The full listing: every bundle in listing order, each with its items.
pub open spec fn listing(v: DatabaseView) -> Seq<BundleView> {
    v.bundles.map_values(|b: BundleView| with_items(b, v.items))
}

/// The items that hold status `st`.
pub open spec fn items_with_status(items: Seq<ItemView>, st: Seq<char>) -> Seq<ItemView> {
    items.filter(|it: ItemView| it.status == st)
}

/// A bundle is complete when it has at least one item and all of them are
/// delivered. Its `required_items` count is not consulted: every listed item
/// is needed.
pub open spec fn bundle_complete(bundle_id: Seq<char>, items: Seq<ItemView>) -> bool {
    &&& exists|i: int| 0 <= i < items.len() && items[i].bundle_id == bundle_id
    &&& forall|i: int|
        0 <= i < items.len() && items[i].bundle_id == bundle_id ==> items[i].status
            == status_delivered()
}

pub open spec fn completed_bundles(v: DatabaseView) -> Seq<BundleView> {
    v.bundles.filter(|b: BundleView| bundle_complete(b.id, v.items))
}

/// The statistics of a store, recomputed from its records.
pub open spec fn progress_of(v: DatabaseView) -> ProgressStats {
    ProgressStats {
        total_items: v.items.len() as usize,
        collected_items: items_with_status(v.items, status_collected()).len() as usize,
        delivered_items: items_with_status(v.items, status_delivered()).len() as usize,
        bundles_completed: completed_bundles(v).len() as usize,
        total_bundles: v.bundles.len() as usize,
    }
}

/// The store after setting the status of the item with key `id` (if any) to `st`.
pub open spec fn with_status(v: DatabaseView, id: Seq<char>, st: Seq<char>) -> DatabaseView {
    DatabaseView {
        bundles: v.bundles,
        items: v.items.map_values(
            |it: ItemView|
                if it.id == id {
                    ItemView { status: st, ..it }
                } else {
                    it
                },
        ),
    }
}

proof fn lemma_items_of_step(s: Seq<ItemView>, bundle_id: Seq<char>, j: int)
    requires
        0 <= j < s.len(),
    ensures
        items_of(s.subrange(0, j + 1), bundle_id) == if s[j].bundle_id == bundle_id {
            items_of(s.subrange(0, j), bundle_id).push(s[j])
        } else {
            items_of(s.subrange(0, j), bundle_id)
        },
{
    reveal(Seq::filter);
    assert(s.subrange(0, j + 1).drop_last() =~= s.subrange(0, j));
}

proof fn lemma_items_with_status_step(s: Seq<ItemView>, st: Seq<char>, j: int)
    requires
        0 <= j < s.len(),
    ensures
        items_with_status(s.subrange(0, j + 1), st) == if s[j].status == st {
            items_with_status(s.subrange(0, j), st).push(s[j])
        } else {
            items_with_status(s.subrange(0, j), st)
        },
{
    reveal(Seq::filter);
    assert(s.subrange(0, j + 1).drop_last() =~= s.subrange(0, j));
}

proof fn lemma_completed_step(v: DatabaseView, j: int)
    requires
        0 <= j < v.bundles.len(),
    ensures
        completed_bundles(DatabaseView { bundles: v.bundles.subrange(0, j + 1), items: v.items })
            == if bundle_complete(v.bundles[j].id, v.items) {
            completed_bundles(DatabaseView { bundles: v.bundles.subrange(0, j), items: v.items }).push(
                v.bundles[j],
            )
        } else {
            completed_bundles(DatabaseView { bundles: v.bundles.subrange(0, j), items: v.items })
        },
{
    reveal(Seq::filter);
    assert(v.bundles.subrange(0, j + 1).drop_last() =~= v.bundles.subrange(0, j));
}

/// The contents of the store, each set in listing order.
pub struct DatabaseView {
    pub bundles: Seq<BundleView>,
    pub items: Seq<ItemView>,
}

/// The invariant of the store: listing order, unique keys, statuses in their
/// domain, every item under a stored bundle, and bundles held without items.
pub open spec fn store_wf(v: DatabaseView) -> bool {
    &&& forall|i: int, j: int|
        0 <= i < j < v.bundles.len() ==> bundle_before(#[trigger] v.bundles[i], #[trigger] v.bundles[j])
    &&& forall|i: int, j: int|
        0 <= i < v.bundles.len() && 0 <= j < v.bundles.len() && i != j
            ==> #[trigger] v.bundles[i].id != #[trigger] v.bundles[j].id
    &&& forall|i: int| 0 <= i < v.bundles.len() ==> (#[trigger] v.bundles[i]).items is None
    &&& forall|i: int, j: int|
        0 <= i < j < v.items.len() ==> item_before(#[trigger] v.items[i], #[trigger] v.items[j])
    &&& forall|i: int, j: int|
        0 <= i < v.items.len() && 0 <= j < v.items.len() && i != j
            ==> #[trigger] v.items[i].id != #[trigger] v.items[j].id
    &&& forall|i: int| 0 <= i < v.items.len() ==> is_valid_status((#[trigger] v.items[i]).status)
    &&& forall|i: int| 0 <= i < v.items.len() ==> has_bundle_id(v.bundles, (#[trigger] v.items[i]).bundle_id)
}

/// What the store keeps of a bundle: everything but its item list.
pub open spec fn stored_bundle(b: BundleView) -> BundleView {
    BundleView { items: None, ..b }
}

/// The store: all bundles and items, with every read and write going through it.
pub struct Database {
    bundles: Vec<Bundle>,
    items: Vec<Item>,
}

impl View for Database {
    type V = DatabaseView;

    closed spec fn view(&self) -> DatabaseView {
        DatabaseView { bundles: bundle_views(self.bundles@), items: item_views(self.items@) }
    }
}

impl Database {
    pub open spec fn wf(&self) -> bool {
        store_wf(self@)
    }

    /// An empty store.
    pub fn new() -> (r: Database)
        ensures
            r.wf(),
            r@.bundles.len() == 0,
            r@.items.len() == 0,
    {
        let r = Database { bundles: Vec::new(), items: Vec::new() };
        proof {
            assert(r@.bundles =~= Seq::<BundleView>::empty());
            assert(r@.items =~= Seq::<ItemView>::empty());
        }
        r
    }

    /// Whether a bundle with this key is stored.
    pub fn has_bundle(&self, id: &str) -> (r: bool)
        ensures
            r == has_bundle_id(self@.bundles, id@),
    {
        let mut i: usize = 0;
        while i < self.bundles.len()
            invariant
                i <= self.bundles.len(),
                forall|k: int| 0 <= k < i ==> self@.bundles[k].id != id@,
            decreases self.bundles.len() - i,
        {
            if compare_text(&self.bundles[i].id, id) == 0 {
                proof {
                    assert(self@.bundles[i as int].id == id@);
                }
                return true;
            }
            i += 1;
        }
        false
    }

    /// Whether an item with this key is stored.
    pub fn has_item(&self, id: &str) -> (r: bool)
        ensures
            r == has_item_id(self@.items, id@),
    {
        let mut i: usize = 0;
        while i < self.items.len()
            invariant
                i <= self.items.len(),
                forall|k: int| 0 <= k < i ==> self@.items[k].id != id@,
            decreases self.items.len() - i,
        {
            if compare_text(&self.items[i].id, id) == 0 {
                proof {
                    assert(self@.items[i as int].id == id@);
                }
                return true;
            }
            i += 1;
        }
        false
    }
    /// Stores the bundle (without its item list) unless one with the same key
    /// is already stored, in which case nothing changes.
    pub fn insert_bundle(&mut self, bundle: &Bundle)
        requires
            old(self).wf(),
        ensures
            final(self).wf(),
            has_bundle_id(old(self)@.bundles, bundle@.id) ==> final(self)@ == old(self)@,
            !has_bundle_id(old(self)@.bundles, bundle@.id) ==> {
                &&& final(self)@.items == old(self)@.items
                &&& final(self)@.bundles.len() == old(self)@.bundles.len() + 1
                &&& forall|r: BundleView|
                    final(self)@.bundles.contains(r) <==> (old(self)@.bundles.contains(r) || r
                        == stored_bundle(bundle@))
            },
    {
        if self.has_bundle(&bundle.id) {
            return ;
        }
        let row = Bundle {
            id: bundle.id.clone(),
            name: bundle.name.clone(),
            room: bundle.room.clone(),
            required_items: bundle.required_items,
            items: None,
        };
        proof {
            assert forall|k: int| 0 <= k < self.bundles@.len() implies self.bundles@[k]@.id
                != row@.id by {
                assert(self@.bundles[k] == self.bundles@[k]@);
            }
        }
        let p = bundle_slot(&self.bundles, &row);
        self.bundles.insert(p, row);
        proof {
            let ob = old(self)@.bundles;
            let nb = self@.bundles;
            let x = stored_bundle(bundle@);
            assert(row@ == x);
            assert(nb =~= ob.insert(p as int, x));
            assert(self@.items == old(self)@.items);
            assert forall|i: int, j: int| 0 <= i < j < nb.len() implies bundle_before(
                #[trigger] nb[i],
                #[trigger] nb[j],
            ) by {
                if i == p && j > p + 1 {
                    lemma_bundle_before_trans(x, ob[p as int], ob[j - 1]);
                } else if i < p && j > p {
                    assert(bundle_before(ob[i], ob[j - 1]));
                } else if i > p {
                    assert(bundle_before(ob[i - 1], ob[j - 1]));
                }
            }
            assert forall|i: int, j: int|
                0 <= i < nb.len() && 0 <= j < nb.len() && i != j implies #[trigger] nb[i].id
                != #[trigger] nb[j].id by {
                if i != p && j != p {
                    let oi = if i < p { i } else { i - 1 };
                    let oj = if j < p { j } else { j - 1 };
                    assert(nb[i] == ob[oi] && nb[j] == ob[oj]);
                } else if i == p {
                    let oj = if j < p { j } else { j - 1 };
                    assert(nb[j] == ob[oj]);
                } else {
                    let oi = if i < p { i } else { i - 1 };
                    assert(nb[i] == ob[oi]);
                }
            }
            assert forall|i: int| 0 <= i < nb.len() implies (#[trigger] nb[i]).items is None by {
                if i < p {
                    assert(nb[i] == ob[i]);
                } else if i > p {
                    assert(nb[i] == ob[i - 1]);
                }
            }
            let items = self@.items;
            assert forall|i: int| 0 <= i < items.len() implies has_bundle_id(
                nb,
                (#[trigger] items[i]).bundle_id,
            ) by {
                let k = choose|k: int| 0 <= k < ob.len() && ob[k].id == items[i].bundle_id;
                if k < p {
                    assert(nb[k] == ob[k]);
                } else {
                    assert(nb[k + 1] == ob[k]);
                }
            }
            assert forall|r: BundleView| nb.contains(r) <==> (ob.contains(r) || r == x) by {
                if nb.contains(r) {
                    let i = choose|i: int| 0 <= i < nb.len() && nb[i] == r;
                    if i < p {
                        assert(ob[i] == r);
                    } else if i > p {
                        assert(ob[i - 1] == r);
                    }
                }
                if ob.contains(r) {
                    let k = choose|k: int| 0 <= k < ob.len() && ob[k] == r;
                    if k < p {
                        assert(nb[k] == r);
                    } else {
                        assert(nb[k + 1] == r);
                    }
                }
                if r == x {
                    assert(nb[p as int] == r);
                }
            }
        }
    }

    /// Stores the item unless one with the same key is already stored, in which
    /// case nothing changes. Its bundle must be stored and its status valid.
    pub fn insert_item(&mut self, item: &Item)
        requires
            old(self).wf(),
            is_valid_status(item@.status),
            has_bundle_id(old(self)@.bundles, item@.bundle_id),
        ensures
            final(self).wf(),
            has_item_id(old(self)@.items, item@.id) ==> final(self)@ == old(self)@,
            !has_item_id(old(self)@.items, item@.id) ==> {
                &&& final(self)@.bundles == old(self)@.bundles
                &&& final(self)@.items.len() == old(self)@.items.len() + 1
                &&& forall|r: ItemView|
                    final(self)@.items.contains(r) <==> (old(self)@.items.contains(r) || r
                        == item@)
            },
    {
        if self.has_item(&item.id) {
            return ;
        }
        let row = item.duplicate();
        proof {
            assert forall|k: int| 0 <= k < self.items@.len() implies self.items@[k]@.id
                != row@.id by {
                assert(self@.items[k] == self.items@[k]@);
            }
        }
        let p = item_slot(&self.items, &row);
        self.items.insert(p, row);
        proof {
            let oi_ = old(self)@.items;
            let ni = self@.items;
            let x = item@;
            assert(ni =~= oi_.insert(p as int, x));
            assert(self@.bundles == old(self)@.bundles);
            assert forall|i: int, j: int| 0 <= i < j < ni.len() implies item_before(
                #[trigger] ni[i],
                #[trigger] ni[j],
            ) by {
                if i == p && j > p + 1 {
                    lemma_item_before_trans(x, oi_[p as int], oi_[j - 1]);
                } else if i < p && j > p {
                    assert(item_before(oi_[i], oi_[j - 1]));
                } else if i > p {
                    assert(item_before(oi_[i - 1], oi_[j - 1]));
                }
            }
            assert forall|i: int, j: int|
                0 <= i < ni.len() && 0 <= j < ni.len() && i != j implies #[trigger] ni[i].id
                != #[trigger] ni[j].id by {
                if i != p && j != p {
                    let a = if i < p { i } else { i - 1 };
                    let b = if j < p { j } else { j - 1 };
                    assert(ni[i] == oi_[a] && ni[j] == oi_[b]);
                } else if i == p {
                    let b = if j < p { j } else { j - 1 };
                    assert(ni[j] == oi_[b]);
                } else {
                    let a = if i < p { i } else { i - 1 };
                    assert(ni[i] == oi_[a]);
                }
            }
            assert forall|i: int| 0 <= i < ni.len() implies is_valid_status(
                (#[trigger] ni[i]).status,
            ) && has_bundle_id(self@.bundles, ni[i].bundle_id) by {
                if i < p {
                    assert(ni[i] == oi_[i]);
                } else if i > p {
                    assert(ni[i] == oi_[i - 1]);
                }
            }
            assert forall|r: ItemView| ni.contains(r) <==> (oi_.contains(r) || r == x) by {
                if ni.contains(r) {
                    let i = choose|i: int| 0 <= i < ni.len() && ni[i] == r;
                    if i < p {
                        assert(oi_[i] == r);
                    } else if i > p {
                        assert(oi_[i - 1] == r);
                    }
                }
                if oi_.contains(r) {
                    let k = choose|k: int| 0 <= k < oi_.len() && oi_[k] == r;
                    if k < p {
                        assert(ni[k] == r);
                    } else {
                        assert(ni[k + 1] == r);
                    }
                }
                if r == x {
                    assert(ni[p as int] == r);
                }
            }
        }
    }
    /// All bundles in listing order, without their items.
    pub fn get_all_bundles(&self) -> (r: Vec<Bundle>)
        requires
            self.wf(),
        ensures
            bundle_views(r@) == self@.bundles,
    {
        let mut out: Vec<Bundle> = Vec::new();
        let mut j: usize = 0;
        while j < self.bundles.len()
            invariant
                self.wf(),
                j <= self.bundles@.len(),
                bundle_views(out@) =~= self@.bundles.subrange(0, j as int),
            decreases self.bundles@.len() - j,
        {
            let b = &self.bundles[j];
            let copy = Bundle {
                id: b.id.clone(),
                name: b.name.clone(),
                room: b.room.clone(),
                required_items: b.required_items,
                items: None,
            };
            proof {
                assert(self@.bundles[j as int] == b@);
                assert(copy@ == b@);
            }
            let ghost before = out@;
            out.push(copy);
            proof {
                assert(bundle_views(out@) =~= bundle_views(before).push(copy@));
            }
            j += 1;
        }
        proof {
            assert(self@.bundles.subrange(0, j as int) =~= self@.bundles);
        }
        out
    }

    /// The items of one bundle in listing order.
    fn get_items_for_bundle(&self, bundle_id: &str) -> (r: Vec<Item>)
        requires
            self.wf(),
        ensures
            item_views(r@) == items_of(self@.items, bundle_id@),
    {
        let mut out: Vec<Item> = Vec::new();
        let mut j: usize = 0;
        while j < self.items.len()
            invariant
                j <= self.items@.len(),
                item_views(out@) =~= items_of(self@.items.subrange(0, j as int), bundle_id@),
            decreases self.items@.len() - j,
        {
            proof {
                lemma_items_of_step(self@.items, bundle_id@, j as int);
                assert(self@.items[j as int] == self.items@[j as int]@);
            }
            if compare_text(&self.items[j].bundle_id, bundle_id) == 0 {
                let copy = self.items[j].duplicate();
                let ghost before = out@;
                out.push(copy);
                proof {
                    assert(item_views(out@) =~= item_views(before).push(copy@));
                }
            }
            j += 1;
        }
        proof {
            assert(self@.items.subrange(0, j as int) =~= self@.items);
        }
        out
    }

    /// Every bundle in listing order, each with its items in listing order.
    pub fn get_all_bundles_with_items(&self) -> (r: Vec<Bundle>)
        requires
            self.wf(),
        ensures
            bundle_views(r@) == listing(self@),
    {
        let mut out: Vec<Bundle> = Vec::new();
        let mut j: usize = 0;
        while j < self.bundles.len()
            invariant
                self.wf(),
                j <= self.bundles@.len(),
                bundle_views(out@) =~= listing(self@).subrange(0, j as int),
            decreases self.bundles@.len() - j,
        {
            let b = &self.bundles[j];
            let items = self.get_items_for_bundle(&b.id);
            let full = Bundle {
                id: b.id.clone(),
                name: b.name.clone(),
                room: b.room.clone(),
                required_items: b.required_items,
                items: Some(items),
            };
            proof {
                assert(self@.bundles[j as int] == b@);
                assert(full@ == with_items(b@, self@.items));
            }
            let ghost before = out@;
            out.push(full);
            proof {
                assert(bundle_views(out@) =~= bundle_views(before).push(full@));
            }
            j += 1;
        }
        proof {
            assert(listing(self@).subrange(0, j as int) =~= listing(self@));
        }
        out
    }

    /// Sets the status of the item with key `item_id`. A status other than
    /// missing, collected or delivered is refused and nothing changes; an
    /// unknown key changes nothing and is no error.
    pub fn update_item_status(&mut self, item_id: &str, status: &str) -> (r: Result<
        (),
        StorageError,
    >)
        requires
            old(self).wf(),
        ensures
            final(self).wf(),
            r is Ok <==> is_valid_status(status@),
            r is Ok ==> final(self)@ == with_status(old(self)@, item_id@, status@),
            r is Err ==> final(self)@ == old(self)@,
            r is Err ==> (match r {
                Err(StorageError::InvalidInput(s)) => s@ == status@,
                _ => false,
            }),
    {
        if !is_known_status(status) {
            return Err(StorageError::InvalidInput(copy_text(status)));
        }
        let ghost target = with_status(old(self)@, item_id@, status@);
        let mut j: usize = 0;
        while j < self.items.len()
            invariant
                is_valid_status(status@),
                j <= self.items@.len(),
                self.items@.len() == old(self).items@.len(),
                self.bundles == old(self).bundles,
                target == with_status(old(self)@, item_id@, status@),
                forall|k: int| 0 <= k < j ==> self@.items[k] == target.items[k],
                forall|k: int| j <= k < self.items@.len() ==> self@.items[k] == old(self)@.items[k],
            decreases self.items@.len() - j,
        {
            if compare_text(&self.items[j].id, item_id) == 0 {
                let cur = &self.items[j];
                let updated = Item {
                    id: cur.id.clone(),
                    bundle_id: cur.bundle_id.clone(),
                    name: cur.name.clone(),
                    status: copy_text(status),
                    quality: copy_opt_text(&cur.quality),
                };
                self.items.set(j, updated);
            }
            j += 1;
        }
        proof {
            assert(self@.items =~= target.items);
            assert(self@.bundles == target.bundles);
            let oi_ = old(self)@.items;
            let ni = self@.items;
            assert forall|i: int, j: int| 0 <= i < j < ni.len() implies item_before(
                #[trigger] ni[i],
                #[trigger] ni[j],
            ) by {
                assert(item_before(oi_[i], oi_[j]));
            }
            assert forall|i: int, j: int|
                0 <= i < ni.len() && 0 <= j < ni.len() && i != j implies #[trigger] ni[i].id
                != #[trigger] ni[j].id by {
                assert(oi_[i].id != oi_[j].id);
            }
            assert forall|i: int| 0 <= i < ni.len() implies is_valid_status(
                (#[trigger] ni[i]).status,
            ) && has_bundle_id(self@.bundles, ni[i].bundle_id) by {
                assert(is_valid_status(oi_[i].status));
                assert(has_bundle_id(old(self)@.bundles, oi_[i].bundle_id));
            }
        }
        Ok(())
    }

    fn count_status(&self, status: &str) -> (r: usize)
        ensures
            r == items_with_status(self@.items, status@).len(),
    {
        let mut c: usize = 0;
        let mut j: usize = 0;
        while j < self.items.len()
            invariant
                j <= self.items@.len(),
                c == items_with_status(self@.items.subrange(0, j as int), status@).len(),
            decreases self.items@.len() - j,
        {
            proof {
                lemma_items_with_status_step(self@.items, status@, j as int);
                assert(self@.items[j as int] == self.items@[j as int]@);
                self@.items.subrange(0, j as int).lemma_filter_len(|it: ItemView| it.status == status@);
            }
            if compare_text(&self.items[j].status, status) == 0 {
                c += 1;
            }
            j += 1;
        }
        proof {
            assert(self@.items.subrange(0, j as int) =~= self@.items);
        }
        c
    }

    fn bundle_is_complete(&self, bundle_id: &str) -> (r: bool)
        ensures
            r == bundle_complete(bundle_id@, self@.items),
    {
        let mut any = false;
        let mut all = true;
        let mut j: usize = 0;
        while j < self.items.len()
            invariant
                j <= self.items@.len(),
                any == exists|k: int| 0 <= k < j && self@.items[k].bundle_id == bundle_id@,
                all == forall|k: int|
                    0 <= k < j && self@.items[k].bundle_id == bundle_id@ ==> self@.items[k].status
                        == crate::models::status_delivered(),
            decreases self.items@.len() - j,
        {
            let it = &self.items[j];
            proof {
                assert(self@.items[j as int] == it@);
            }
            if compare_text(&it.bundle_id, bundle_id) == 0 {
                any = true;
                if !crate::models::is_status_delivered(&it.status) {
                    all = false;
                }
            }
            j += 1;
        }
        any && all
    }

    /// Aggregate counts over the current items and bundles.
    pub fn get_progress_stats(&self) -> (r: ProgressStats)
        ensures
            r == progress_of(self@),
    {
        proof {
            reveal_strlit("collected");
            reveal_strlit("delivered");
            assert("collected"@ =~= status_collected());
            assert("delivered"@ =~= status_delivered());
        }
        let total_items = self.items.len();
        let collected_items = self.count_status("collected");
        let delivered_items = self.count_status("delivered");
        let total_bundles = self.bundles.len();
        let mut completed: usize = 0;
        let mut j: usize = 0;
        while j < self.bundles.len()
            invariant
                j <= self.bundles@.len(),
                completed == completed_bundles(
                    DatabaseView { bundles: self@.bundles.subrange(0, j as int), items: self@.items },
                ).len(),
            decreases self.bundles@.len() - j,
        {
            proof {
                lemma_completed_step(self@, j as int);
                assert(self@.bundles[j as int] == self.bundles@[j as int]@);
                self@.bundles.subrange(0, j as int).lemma_filter_len(
                    |b: BundleView| bundle_complete(b.id, self@.items),
                );
            }
            if self.bundle_is_complete(&self.bundles[j].id) {
                completed += 1;
            }
            j += 1;
        }
        proof {
            assert(self@.bundles.subrange(0, j as int) =~= self@.bundles);
            assert(self@.items.len() == self.items@.len());
            assert(self@.bundles.len() == self.bundles@.len());
        }
        ProgressStats {
            total_items,
            collected_items,
            delivered_items,
            bundles_completed: completed,
            total_bundles,
        }
    }
}

/// Updating the status of a key that no item holds leaves the store unchanged.
pub proof fn lemma_update_unknown_key(v: DatabaseView, id: Seq<char>, st: Seq<char>)
    requires
        !has_item_id(v.items, id),
    ensures
        with_status(v, id, st) == v,
{
    let w = with_status(v, id, st);
    assert forall|i: int| 0 <= i < v.items.len() implies w.items[i] == v.items[i] by {
        assert(v.items[i].id != id);
    }
    assert(w.items =~= v.items);
}

/// With no items, every item count and the completed-bundle count are zero.
pub proof fn lemma_stats_without_items(v: DatabaseView)
    requires
        v.items.len() == 0,
    ensures
        progress_of(v).total_items == 0,
        progress_of(v).collected_items == 0,
        progress_of(v).delivered_items == 0,
        progress_of(v).bundles_completed == 0,
        v.bundles.len() == 0 ==> progress_of(v).total_bundles == 0,
{
    reveal(Seq::filter);
    let f = completed_bundles(v);
    if f.len() > 0 {
        v.bundles.lemma_filter_pred(|b: BundleView| bundle_complete(b.id, v.items), 0);
    }
}

/// A bundle counts as completed exactly when the items listed under it are not
/// empty and are all delivered.
pub proof fn lemma_completion_matches_listing(v: DatabaseView, j: int)
    requires
        store_wf(v),
        0 <= j < v.bundles.len(),
    ensures
        completed_bundles(v).contains(v.bundles[j]) <==> {
            let listed = items_of(v.items, v.bundles[j].id);
            listed.len() > 0 && forall|k: int| 0 <= k < listed.len() ==> listed[k].status
                == status_delivered()
        },
{
    let b = v.bundles[j];
    let listed = items_of(v.items, b.id);
    let f = completed_bundles(v);
    broadcast use Seq::lemma_filter_pred, Seq::lemma_filter_contains, Seq::lemma_filter_contains_rev;

    if f.contains(b) {
        let q = choose|q: int| 0 <= q < f.len() && f[q] == b;
        assert(bundle_complete(f[q].id, v.items));
        let w = choose|w: int| 0 <= w < v.items.len() && v.items[w].bundle_id == b.id;
        assert(listed.contains(v.items[w]));
        assert forall|k: int| 0 <= k < listed.len() implies listed[k].status
            == status_delivered() by {
            assert(listed[k].bundle_id == b.id);
            assert(listed.contains(listed[k]));
            assert(v.items.contains(listed[k]));
        }
    }
    if listed.len() > 0 && forall|k: int| 0 <= k < listed.len() ==> listed[k].status
        == status_delivered() {
        assert(listed[0].bundle_id == b.id);
        assert(listed.contains(listed[0]));
        assert(v.items.contains(listed[0]));
        assert forall|w: int| 0 <= w < v.items.len() && v.items[w].bundle_id == b.id implies v.items[w].status
            == status_delivered() by {
            assert(listed.contains(v.items[w]));
        }
        assert(bundle_complete(b.id, v.items));
        assert(f.contains(v.bundles[j]));
    }
}

/// The listing is ordered: bundles by room, name and key; the items under each
/// bundle by name and key.
pub proof fn lemma_listing_ordered(v: DatabaseView)
    requires
        store_wf(v),
    ensures
        forall|i: int, j: int|
            0 <= i < j < listing(v).len() ==> bundle_before(
                #[trigger] listing(v)[i],
                #[trigger] listing(v)[j],
            ),
        forall|i: int, a: int, c: int|
            0 <= i < listing(v).len() && 0 <= a < c < listing(v)[i].items.unwrap().len()
                ==> item_before(
                #[trigger] listing(v)[i].items.unwrap()[a],
                #[trigger] listing(v)[i].items.unwrap()[c],
            ),
{
    let l = listing(v);
    assert forall|i: int, j: int| 0 <= i < j < l.len() implies bundle_before(
        #[trigger] l[i],
        #[trigger] l[j],
    ) by {
        assert(bundle_before(v.bundles[i], v.bundles[j]));
    }
    assert forall|i: int, a: int, c: int|
        0 <= i < l.len() && 0 <= a < c < l[i].items.unwrap().len() implies item_before(
        #[trigger] l[i].items.unwrap()[a],
        #[trigger] l[i].items.unwrap()[c],
    ) by {
        lemma_filter_ordered(v.items, v.bundles[i].id);
    }
}

/// Filtering keeps the listing order of items, and keeps only stored items.
proof fn lemma_filter_ordered(s: Seq<ItemView>, bundle_id: Seq<char>)
    requires
        forall|i: int, j: int| 0 <= i < j < s.len() ==> item_before(#[trigger] s[i], #[trigger] s[j]),
    ensures
        forall|a: int, c: int|
            0 <= a < c < items_of(s, bundle_id).len() ==> item_before(
                #[trigger] items_of(s, bundle_id)[a],
                #[trigger] items_of(s, bundle_id)[c],
            ),
        forall|a: int| 0 <= a < items_of(s, bundle_id).len() ==> s.contains(#[trigger] items_of(s, bundle_id)[a]),
    decreases s.len(),
{
    reveal(Seq::filter);
    if s.len() > 0 {
        let d = s.drop_last();
        lemma_filter_ordered(d, bundle_id);
        let f = items_of(s, bundle_id);
        let g = items_of(d, bundle_id);
        assert forall|a: int| 0 <= a < f.len() implies s.contains(#[trigger] f[a]) by {
            if a < g.len() {
                assert(d.contains(g[a]));
                let q = choose|q: int| 0 <= q < d.len() && d[q] == g[a];
                assert(s[q] == g[a]);
            } else {
                assert(f[a] == s.last());
                assert(s[s.len() - 1] == f[a]);
            }
        }
        assert forall|a: int, c: int| 0 <= a < c < f.len() implies item_before(
            #[trigger] f[a],
            #[trigger] f[c],
        ) by {
            if c >= g.len() {
                assert(d.contains(g[a]));
                let q = choose|q: int| 0 <= q < d.len() && d[q] == g[a];
                assert(item_before(s[q], s[s.len() - 1]));
            } else {
                assert(item_before(g[a], g[c]));
            }
        }
    }
}

proof fn lemma_bundle_before_asym(x: BundleView, y: BundleView)
    requires
        bundle_before(x, y),
    ensures
        !bundle_before(y, x),
        x != y,
{
    if text_lt(x.room, y.room) {
        lemma_text_lt_asym(x.room, y.room);
    } else if text_lt(x.name, y.name) {
        lemma_text_lt_asym(x.name, y.name);
    } else {
        lemma_text_lt_asym(x.id, y.id);
    }
}

proof fn lemma_item_before_asym(x: ItemView, y: ItemView)
    requires
        item_before(x, y),
    ensures
        !item_before(y, x),
        x != y,
{
    if text_lt(x.name, y.name) {
        lemma_text_lt_asym(x.name, y.name);
    } else {
        lemma_text_lt_asym(x.id, y.id);
    }
}

proof fn lemma_bundles_determined(s1: Seq<BundleView>, s2: Seq<BundleView>)
    requires
        forall|i: int, j: int| 0 <= i < j < s1.len() ==> bundle_before(#[trigger] s1[i], #[trigger] s1[j]),
        forall|i: int, j: int| 0 <= i < j < s2.len() ==> bundle_before(#[trigger] s2[i], #[trigger] s2[j]),
        forall|r: BundleView| #[trigger] s1.contains(r) ==> s2.contains(r),
        forall|r: BundleView| #[trigger] s2.contains(r) ==> s1.contains(r),
    ensures
        s1 == s2,
    decreases s1.len(),
{
    if s1.len() == 0 {
        if s2.len() > 0 {
            assert(s2.contains(s2[0]));
        }
        assert(s1 =~= s2);
    } else {
        assert(s1.contains(s1[0]));
        let q = choose|q: int| 0 <= q < s2.len() && s2[q] == s1[0];
        assert(s2.contains(s2[0]));
        let p = choose|p: int| 0 <= p < s1.len() && s1[p] == s2[0];
        if q > 0 {
            if p > 0 {
                lemma_bundle_before_asym(s1[0], s1[p]);
            } else {
                lemma_bundle_before_asym(s2[0], s2[q]);
            }
        }
        let t1 = s1.drop_first();
        let t2 = s2.drop_first();
        assert forall|r: BundleView| #[trigger] t1.contains(r) implies t2.contains(r) by {
            {
                let i = choose|i: int| 0 <= i < t1.len() && t1[i] == r;
                lemma_bundle_before_asym(s1[0], s1[i + 1]);
                assert(s1.contains(r));
                let k = choose|k: int| 0 <= k < s2.len() && s2[k] == r;
                assert(k != 0);
                assert(t2[k - 1] == r);
            }
        }
        assert forall|r: BundleView| #[trigger] t2.contains(r) implies t1.contains(r) by {
            {
                let i = choose|i: int| 0 <= i < t2.len() && t2[i] == r;
                lemma_bundle_before_asym(s2[0], s2[i + 1]);
                assert(s2.contains(r));
                let k = choose|k: int| 0 <= k < s1.len() && s1[k] == r;
                assert(k != 0);
                assert(t1[k - 1] == r);
            }
        }
        lemma_bundles_determined(t1, t2);
        assert(s1 =~= seq![s1[0]] + t1);
        assert(s2 =~= seq![s2[0]] + t2);
    }
}

proof fn lemma_items_determined(s1: Seq<ItemView>, s2: Seq<ItemView>)
    requires
        forall|i: int, j: int| 0 <= i < j < s1.len() ==> item_before(#[trigger] s1[i], #[trigger] s1[j]),
        forall|i: int, j: int| 0 <= i < j < s2.len() ==> item_before(#[trigger] s2[i], #[trigger] s2[j]),
        forall|r: ItemView| #[trigger] s1.contains(r) ==> s2.contains(r),
        forall|r: ItemView| #[trigger] s2.contains(r) ==> s1.contains(r),
    ensures
        s1 == s2,
    decreases s1.len(),
{
    if s1.len() == 0 {
        if s2.len() > 0 {
            assert(s2.contains(s2[0]));
        }
        assert(s1 =~= s2);
    } else {
        assert(s1.contains(s1[0]));
        let q = choose|q: int| 0 <= q < s2.len() && s2[q] == s1[0];
        assert(s2.contains(s2[0]));
        let p = choose|p: int| 0 <= p < s1.len() && s1[p] == s2[0];
        if q > 0 {
            if p > 0 {
                lemma_item_before_asym(s1[0], s1[p]);
            } else {
                lemma_item_before_asym(s2[0], s2[q]);
            }
        }
        let t1 = s1.drop_first();
        let t2 = s2.drop_first();
        assert forall|r: ItemView| #[trigger] t1.contains(r) implies t2.contains(r) by {
            {
                let i = choose|i: int| 0 <= i < t1.len() && t1[i] == r;
                lemma_item_before_asym(s1[0], s1[i + 1]);
                assert(s1.contains(r));
                let k = choose|k: int| 0 <= k < s2.len() && s2[k] == r;
                assert(k != 0);
                assert(t2[k - 1] == r);
            }
        }
        assert forall|r: ItemView| #[trigger] t2.contains(r) implies t1.contains(r) by {
            {
                let i = choose|i: int| 0 <= i < t2.len() && t2[i] == r;
                lemma_item_before_asym(s2[0], s2[i + 1]);
                assert(s2.contains(r));
                let k = choose|k: int| 0 <= k < s1.len() && s1[k] == r;
                assert(k != 0);
                assert(t1[k - 1] == r);
            }
        }
        lemma_items_determined(t1, t2);
        assert(s1 =~= seq![s1[0]] + t1);
        assert(s2 =~= seq![s2[0]] + t2);
    }
}

/// The listing depends only on which bundles and items are stored, not on the
/// order in which they were inserted.
pub proof fn lemma_listing_independent_of_insertion_order(v1: DatabaseView, v2: DatabaseView)
    requires
        store_wf(v1),
        store_wf(v2),
        forall|r: BundleView| #[trigger] v1.bundles.contains(r) ==> v2.bundles.contains(r),
        forall|r: BundleView| #[trigger] v2.bundles.contains(r) ==> v1.bundles.contains(r),
        forall|r: ItemView| #[trigger] v1.items.contains(r) ==> v2.items.contains(r),
        forall|r: ItemView| #[trigger] v2.items.contains(r) ==> v1.items.contains(r),
    ensures
        listing(v1) == listing(v2),
{
    lemma_bundles_determined(v1.bundles, v2.bundles);
    lemma_items_determined(v1.items, v2.items);
}

} // verus!
