//! The catalog loader: fills an empty store with a catalog of bundles and
//! their items, once.
use vstd::prelude::*;
use crate::models::{bundle_views, is_known_status, is_valid_status, Bundle, BundleView, ItemView};
use crate::order::compare_text;
use crate::store::{has_bundle_id, has_item_id, store_wf, stored_bundle, Database, DatabaseView};

verus! {

/// Item `k` of bundle `i` of the catalog.
pub open spec fn catalog_item(cat: Seq<BundleView>, i: int, k: int) -> ItemView {
    cat[i].items.unwrap()[k]
}

pub open spec fn is_catalog_slot(cat: Seq<BundleView>, i: int, k: int) -> bool {
    0 <= i < cat.len() && cat[i].items is Some && 0 <= k < cat[i].items.unwrap().len()
}

/// Whether `r` is listed under one of the first `n` bundles of the catalog.
pub open spec fn catalog_has_item(cat: Seq<BundleView>, n: int, r: ItemView) -> bool {
    exists|i: int, k: int| 0 <= i < n && is_catalog_slot(cat, i, k) && r == catalog_item(cat, i, k)
}

/// Whether `r` is, as stored, one of the first `n` bundles of the catalog.
pub open spec fn catalog_has_bundle(cat: Seq<BundleView>, n: int, r: BundleView) -> bool {
    exists|i: int| 0 <= i < n && r == stored_bundle(cat[i])
}

/// A well-formed catalog: bundle keys unique, item keys unique over the whole
/// catalog, each item listed under the bundle it names, statuses valid.
pub open spec fn catalog_wf(cat: Seq<BundleView>) -> bool {
    &&& forall|i: int, j: int|
        0 <= i < cat.len() && 0 <= j < cat.len() && i != j ==> #[trigger] cat[i].id
            != #[trigger] cat[j].id
    &&& forall|i: int, k: int|
        #[trigger] is_catalog_slot(cat, i, k) ==> catalog_item(cat, i, k).bundle_id == cat[i].id
            && is_valid_status(catalog_item(cat, i, k).status)
    &&& forall|i: int, k: int, j: int, l: int|
        #[trigger] is_catalog_slot(cat, i, k) && #[trigger] is_catalog_slot(cat, j, l) && (i != j
            || k != l) ==> catalog_item(cat, i, k).id != catalog_item(cat, j, l).id
}

/// What seeding does: a store that already holds bundles is left as it is; an
/// empty one ends up holding exactly the catalog's bundles and items.
pub open spec fn seeded(before: DatabaseView, cat: Seq<BundleView>, after: DatabaseView) -> bool {
    &&& store_wf(after)
    &&& before.bundles.len() > 0 ==> after == before
    &&& before.bundles.len() == 0 ==> {
        &&& forall|r: BundleView|
            after.bundles.contains(r) <==> catalog_has_bundle(cat, cat.len() as int, r)
        &&& forall|r: ItemView|
            after.items.contains(r) <==> catalog_has_item(cat, cat.len() as int, r)
    }
}

/// Loads the catalog into the store unless the store already lists bundles.
pub fn seed_database(db: &mut Database, catalog: &Vec<Bundle>)
    requires
        old(db).wf(),
        catalog_wf(bundle_views(catalog@)),
    ensures
        seeded(old(db)@, bundle_views(catalog@), final(db)@),
{
    let existing = db.get_all_bundles();
    if existing.len() > 0 {
        return ;
    }
    let ghost cat = bundle_views(catalog@);
    proof {
        assert(db@.bundles.len() == 0);
        if db@.items.len() > 0 {
            assert(has_bundle_id(db@.bundles, db@.items[0].bundle_id));
        }
    }
    let mut i: usize = 0;
    while i < catalog.len()
        invariant
            db.wf(),
            cat == bundle_views(catalog@),
            catalog_wf(cat),
            old(db)@.bundles.len() == 0,
            i <= catalog@.len(),
            forall|r: BundleView| #[trigger] db@.bundles.contains(r) <==> catalog_has_bundle(cat, i as int, r),
            forall|r: ItemView| #[trigger] db@.items.contains(r) <==> catalog_has_item(cat, i as int, r),
        decreases catalog@.len() - i,
    {
        let b = &catalog[i];
        proof {
            assert(cat[i as int] == b@);
            if has_bundle_id(db@.bundles, b@.id) {
                let q = choose|q: int| 0 <= q < db@.bundles.len() && db@.bundles[q].id == b@.id;
                assert(db@.bundles.contains(db@.bundles[q]));
                let m = choose|m: int| 0 <= m < i && db@.bundles[q] == stored_bundle(cat[m]);
                assert(cat[m].id != cat[i as int].id);
            }
        }
        db.insert_bundle(b);
        proof {
            assert forall|r: BundleView| #[trigger] db@.bundles.contains(r) <==> catalog_has_bundle(
                cat,
                i + 1,
                r,
            ) by {
                if r == stored_bundle(cat[i as int]) {
                    assert(catalog_has_bundle(cat, i + 1, r));
                }
                if catalog_has_bundle(cat, i + 1, r) && r != stored_bundle(cat[i as int]) {
                    assert(catalog_has_bundle(cat, i as int, r));
                }
            }
            assert forall|r: ItemView| #[trigger] db@.items.contains(r) <==> catalog_has_item(cat, i as int, r) by {}
            assert(db@.bundles.contains(stored_bundle(cat[i as int])));
        }
        match &b.items {
            Some(items) => {
                let mut k: usize = 0;
                while k < items.len()
                    invariant
                        db.wf(),
                        cat == bundle_views(catalog@),
                        catalog_wf(cat),
                        i < catalog@.len(),
                        cat[i as int] == b@,
                        b.items == Some(*items),
                        k <= items@.len(),
                        forall|r: BundleView|
                            #[trigger] db@.bundles.contains(r) <==> catalog_has_bundle(cat, i + 1, r),
                        forall|r: ItemView|
                            #[trigger] db@.items.contains(r) <==> (catalog_has_item(cat, i as int, r)
                                || exists|l: int| 0 <= l < k && r == catalog_item(cat, i as int, l)),
                    decreases items@.len() - k,
                {
                    let it = &items[k];
                    proof {
                        assert(is_catalog_slot(cat, i as int, k as int));
                        assert(catalog_item(cat, i as int, k as int) == it@);
                        assert(db@.bundles.contains(stored_bundle(cat[i as int])));
                        let q = choose|q: int|
                            0 <= q < db@.bundles.len() && db@.bundles[q] == stored_bundle(
                                cat[i as int],
                            );
                        assert(db@.bundles[q].id == it@.bundle_id);
                        if has_item_id(db@.items, it@.id) {
                            let p = choose|p: int| 0 <= p < db@.items.len() && db@.items[p].id == it@.id;
                            assert(db@.items.contains(db@.items[p]));
                            if catalog_has_item(cat, i as int, db@.items[p]) {
                                let (m, l) = choose|m: int, l: int|
                                    0 <= m < i && is_catalog_slot(cat, m, l) && db@.items[p]
                                        == catalog_item(cat, m, l);
                                assert(m != i);
                            } else {
                                let l = choose|l: int|
                                    0 <= l < k && db@.items[p] == catalog_item(cat, i as int, l);
                                assert(is_catalog_slot(cat, i as int, l));
                                assert(l != k);
                            }
                        }
                    }
                    db.insert_item(it);
                    proof {
                        assert forall|r: ItemView| #[trigger] db@.items.contains(r) <==> (catalog_has_item(
                            cat,
                            i as int,
                            r,
                        ) || exists|l: int| 0 <= l < k + 1 && r == catalog_item(cat, i as int, l)) by {
                            if r == it@ {
                                assert(r == catalog_item(cat, i as int, k as int));
                            }
                            if exists|l: int| 0 <= l < k + 1 && r == catalog_item(cat, i as int, l) {
                                let l = choose|l: int| 0 <= l < k + 1 && r == catalog_item(cat, i as int, l);
                                if l < k {
                                    assert(exists|l: int| 0 <= l < k && r == catalog_item(cat, i as int, l));
                                }
                            }
                        }
                    }
                    k += 1;
                }
                proof {
                    assert forall|r: ItemView| #[trigger] db@.items.contains(r) <==> catalog_has_item(cat, i + 1, r) by {
                        if catalog_has_item(cat, i + 1, r) {
                            let (m, l) = choose|m: int, l: int|
                                0 <= m < i + 1 && is_catalog_slot(cat, m, l) && r == catalog_item(cat, m, l);
                            if m == i {
                                assert(0 <= l < k && r == catalog_item(cat, i as int, l));
                            } else {
                                assert(catalog_has_item(cat, i as int, r));
                            }
                        }
                        if exists|l: int| 0 <= l < k && r == catalog_item(cat, i as int, l) {
                            let l = choose|l: int| 0 <= l < k && r == catalog_item(cat, i as int, l);
                            assert(is_catalog_slot(cat, i as int, l));
                        }
                    }
                }
            },
            None => {
                proof {
                    assert forall|r: ItemView| #[trigger] db@.items.contains(r) <==> catalog_has_item(cat, i + 1, r) by {
                        if catalog_has_item(cat, i + 1, r) {
                            let (m, l) = choose|m: int, l: int|
                                0 <= m < i + 1 && is_catalog_slot(cat, m, l) && r == catalog_item(cat, m, l);
                            assert(m != i);
                        }
                    }
                }
            },
        }
        i += 1;
    }
}

/// Whether no item of the catalog other than item `k` of bundle `i` has its key.
fn item_key_unique(catalog: &Vec<Bundle>, i: usize, k: usize) -> (r: bool)
    requires
        is_catalog_slot(bundle_views(catalog@), i as int, k as int),
    ensures
        r == forall|j: int, l: int|
            #[trigger] is_catalog_slot(bundle_views(catalog@), j, l) && (j != i || l != k)
                ==> catalog_item(bundle_views(catalog@), j, l).id != catalog_item(
                bundle_views(catalog@),
                i as int,
                k as int,
            ).id,
{
    let ghost cat = bundle_views(catalog@);
    let key = match &catalog[i].items {
        Some(v) => &v[k].id,
        None => {
            proof {
                assert(cat[i as int] == catalog@[i as int]@);
            }
            return true;
        },
    };
    proof {
        assert(cat[i as int] == catalog@[i as int]@);
        assert(key@ == catalog_item(cat, i as int, k as int).id);
    }
    let mut j: usize = 0;
    while j < catalog.len()
        invariant
            cat == bundle_views(catalog@),
            key@ == catalog_item(cat, i as int, k as int).id,
            j <= catalog@.len(),
            forall|m: int, l: int|
                #[trigger] is_catalog_slot(cat, m, l) && m < j && (m != i || l != k)
                    ==> catalog_item(cat, m, l).id != key@,
        decreases catalog@.len() - j,
    {
        proof {
            assert(cat[j as int] == catalog@[j as int]@);
        }
        match &catalog[j].items {
            Some(v) => {
                let mut l: usize = 0;
                while l < v.len()
                    invariant
                        cat == bundle_views(catalog@),
                        key@ == catalog_item(cat, i as int, k as int).id,
                        j < catalog@.len(),
                        catalog@[j as int].items == Some(*v),
                        cat[j as int] == catalog@[j as int]@,
                        l <= v@.len(),
                        forall|m: int, n: int|
                            #[trigger] is_catalog_slot(cat, m, n) && (m < j || (m == j && n < l))
                                && (m != i || n != k) ==> catalog_item(cat, m, n).id != key@,
                    decreases v@.len() - l,
                {
                    proof {
                        assert(catalog_item(cat, j as int, l as int) == v@[l as int]@);
                    }
                    if (j != i || l != k) && compare_text(&v[l].id, key) == 0 {
                        proof {
                            assert(is_catalog_slot(cat, j as int, l as int));
                        }
                        return false;
                    }
                    l += 1;
                }
            },
            None => {},
        }
        j += 1;
    }
    true
}

/// Whether the catalog is well formed, the condition for seeding with it.
pub fn catalog_is_well_formed(catalog: &Vec<Bundle>) -> (r: bool)
    ensures
        r == catalog_wf(bundle_views(catalog@)),
{
    let ghost cat = bundle_views(catalog@);
    let mut i: usize = 0;
    while i < catalog.len()
        invariant
            cat == bundle_views(catalog@),
            i <= catalog@.len(),
            forall|a: int, b: int|
                0 <= a < i && 0 <= b < cat.len() && a != b ==> #[trigger] cat[a].id != #[trigger] cat[b].id,
            forall|a: int, k: int|
                #[trigger] is_catalog_slot(cat, a, k) && a < i ==> catalog_item(cat, a, k).bundle_id
                    == cat[a].id && is_valid_status(catalog_item(cat, a, k).status),
            forall|a: int, k: int, b: int, l: int|
                #[trigger] is_catalog_slot(cat, a, k) && #[trigger] is_catalog_slot(cat, b, l) && a
                    < i && (a != b || k != l) ==> catalog_item(cat, a, k).id != catalog_item(
                    cat,
                    b,
                    l,
                ).id,
        decreases catalog@.len() - i,
    {
        let bi = &catalog[i];
        proof {
            assert(cat[i as int] == bi@);
        }
        let mut j: usize = 0;
        while j < catalog.len()
            invariant
                cat == bundle_views(catalog@),
                i < catalog@.len(),
                cat[i as int] == bi@,
                j <= catalog@.len(),
                forall|b: int| 0 <= b < j && b != i ==> #[trigger] cat[b].id != cat[i as int].id,
            decreases catalog@.len() - j,
        {
            proof {
                assert(cat[j as int] == catalog@[j as int]@);
            }
            if j != i && compare_text(&catalog[j].id, &bi.id) == 0 {
                proof {
                    assert(cat[j as int].id == cat[i as int].id);
                }
                return false;
            }
            j += 1;
        }
        match &bi.items {
            Some(v) => {
                let mut k: usize = 0;
                while k < v.len()
                    invariant
                        cat == bundle_views(catalog@),
                        i < catalog@.len(),
                        cat[i as int] == bi@,
                        bi.items == Some(*v),
                        k <= v@.len(),
                        forall|n: int|
                            #[trigger] is_catalog_slot(cat, i as int, n) && n < k ==> catalog_item(
                                cat,
                                i as int,
                                n,
                            ).bundle_id == cat[i as int].id && is_valid_status(
                                catalog_item(cat, i as int, n).status,
                            ),
                        forall|n: int, b: int, l: int|
                            #[trigger] is_catalog_slot(cat, i as int, n) && #[trigger] is_catalog_slot(
                                cat,
                                b,
                                l,
                            ) && n < k && (i != b || n != l) ==> catalog_item(cat, i as int, n).id
                                != catalog_item(cat, b, l).id,
                    decreases v@.len() - k,
                {
                    let it = &v[k];
                    proof {
                        assert(is_catalog_slot(cat, i as int, k as int));
                        assert(catalog_item(cat, i as int, k as int) == it@);
                    }
                    if compare_text(&it.bundle_id, &bi.id) != 0 || !is_known_status(&it.status) {
                        return false;
                    }
                    if !item_key_unique(catalog, i, k) {
                        return false;
                    }
                    k += 1;
                }
            },
            None => {},
        }
        i += 1;
    }
    true
}

/// Seeding is idempotent: seeding a store a second time with the same catalog
/// leaves it as the first seeding left it.
pub proof fn lemma_seed_idempotent(
    v0: DatabaseView,
    cat: Seq<BundleView>,
    v1: DatabaseView,
    v2: DatabaseView,
)
    requires
        store_wf(v0),
        seeded(v0, cat, v1),
        seeded(v1, cat, v2),
    ensures
        v2 == v1,
{
    if v1.bundles.len() == 0 {
        if cat.len() > 0 {
            assert(catalog_has_bundle(cat, cat.len() as int, stored_bundle(cat[0])));
            assert(v1.bundles.contains(stored_bundle(cat[0])));
        }
        if v2.bundles.len() > 0 {
            assert(v2.bundles.contains(v2.bundles[0]));
        }
        if v1.items.len() > 0 {
            assert(v1.items.contains(v1.items[0]));
        }
        if v2.items.len() > 0 {
            assert(v2.items.contains(v2.items[0]));
        }
        assert(v1.bundles =~= v2.bundles);
        assert(v1.items =~= v2.items);
    }
}

} // verus!
