//! The records of the store: bundles, items, and the derived statistics.
use vstd::prelude::*;
use crate::order::compare_text;

verus! {

/// A single trackable object of a bundle.
#[derive(Debug, Clone)]
pub struct Item {
    pub id: String,
    pub bundle_id: String,
    pub name: String,
    pub status: String,
    pub quality: Option<String>,
}

/// A named collection of items that belongs to a room.
#[derive(Debug, Clone)]
pub struct Bundle {
    pub id: String,
    pub name: String,
    pub room: String,
    pub required_items: i32,
    pub items: Option<Vec<Item>>,
}

/// Aggregate counts derived from item state on every query.
#[derive(Debug, Clone, Copy, PartialEq, Eq)]
pub struct ProgressStats {
    pub total_items: usize,
    pub collected_items: usize,
    pub delivered_items: usize,
    pub bundles_completed: usize,
    pub total_bundles: usize,
}

/// Failures that the store reports to its callers.
#[derive(Debug, Clone)]
pub enum StorageError {
    /// A status outside missing / collected / delivered; holds the rejected text.
    InvalidInput(String),
    /// A failure of the persistence layer, with its message.
    StorageFailure(String),
}

pub struct ItemView {
    pub id: Seq<char>,
    pub bundle_id: Seq<char>,
    pub name: Seq<char>,
    pub status: Seq<char>,
    pub quality: Option<Seq<char>>,
}

pub struct BundleView {
    pub id: Seq<char>,
    pub name: Seq<char>,
    pub room: Seq<char>,
    pub required_items: i32,
    pub items: Option<Seq<ItemView>>,
}

pub open spec fn opt_text_view(t: Option<String>) -> Option<Seq<char>> {
    match t {
        Some(s) => Some(s@),
        None => None,
    }
}

impl View for Item {
    type V = ItemView;

    open spec fn view(&self) -> ItemView {
        ItemView {
            id: self.id@,
            bundle_id: self.bundle_id@,
            name: self.name@,
            status: self.status@,
            quality: opt_text_view(self.quality),
        }
    }
}

pub open spec fn item_views(items: Seq<Item>) -> Seq<ItemView> {
    items.map_values(|it: Item| it@)
}

impl View for Bundle {
    type V = BundleView;

    open spec fn view(&self) -> BundleView {
        BundleView {
            id: self.id@,
            name: self.name@,
            room: self.room@,
            required_items: self.required_items,
            items: match self.items {
                Some(v) => Some(item_views(v@)),
                None => None,
            },
        }
    }
}

pub open spec fn bundle_views(bundles: Seq<Bundle>) -> Seq<BundleView> {
    bundles.map_values(|b: Bundle| b@)
}

pub open spec fn status_missing() -> Seq<char> {
    seq!['m', 'i', 's', 's', 'i', 'n', 'g']
}

pub open spec fn status_collected() -> Seq<char> {
    seq!['c', 'o', 'l', 'l', 'e', 'c', 't', 'e', 'd']
}

pub open spec fn status_delivered() -> Seq<char> {
    seq!['d', 'e', 'l', 'i', 'v', 'e', 'r', 'e', 'd']
}

/// The three statuses an item can hold.
pub open spec fn is_valid_status(s: Seq<char>) -> bool {
    s == status_missing() || s == status_collected() || s == status_delivered()
}

pub fn is_status_missing(s: &str) -> (r: bool)
    ensures
        r == (s@ == status_missing()),
{
    proof {
        reveal_strlit("missing");
    }
    let r = compare_text(s, "missing") == 0;
    proof {
        assert("missing"@ =~= status_missing());
    }
    r
}

pub fn is_status_collected(s: &str) -> (r: bool)
    ensures
        r == (s@ == status_collected()),
{
    proof {
        reveal_strlit("collected");
    }
    let r = compare_text(s, "collected") == 0;
    proof {
        assert("collected"@ =~= status_collected());
    }
    r
}

pub fn is_status_delivered(s: &str) -> (r: bool)
    ensures
        r == (s@ == status_delivered()),
{
    proof {
        reveal_strlit("delivered");
    }
    let r = compare_text(s, "delivered") == 0;
    proof {
        assert("delivered"@ =~= status_delivered());
    }
    r
}

/// Whether `s` is one of the three recognized statuses.
pub fn is_known_status(s: &str) -> (r: bool)
    ensures
        r == is_valid_status(s@),
{
    is_status_missing(s) || is_status_collected(s) || is_status_delivered(s)
}

pub(crate) fn copy_text(s: &str) -> (r: String)
    ensures
        r@ == s@,
{
    s.to_owned()
}

pub(crate) fn copy_opt_text(t: &Option<String>) -> (r: Option<String>)
    ensures
        opt_text_view(r) == opt_text_view(*t),
{
    match t {
        Some(s) => Some(s.clone()),
        None => None,
    }
}

impl Item {
    /// A new item in status `missing`, accepted in any quality.
    pub fn new(id: &str, bundle_id: &str, name: &str) -> (r: Item)
        ensures
            r@ == (ItemView {
                id: id@,
                bundle_id: bundle_id@,
                name: name@,
                status: status_missing(),
                quality: None,
            }),
    {
        proof {
            reveal_strlit("missing");
            assert("missing"@ =~= status_missing());
        }
        Item {
            id: copy_text(id),
            bundle_id: copy_text(bundle_id),
            name: copy_text(name),
            status: copy_text("missing"),
            quality: None,
        }
    }

    /// A new item in status `missing` that asks for the given quality.
    pub fn new_with_quality(id: &str, bundle_id: &str, name: &str, quality: &str) -> (r: Item)
        ensures
            r@ == (ItemView {
                id: id@,
                bundle_id: bundle_id@,
                name: name@,
                status: status_missing(),
                quality: Some(quality@),
            }),
    {
        proof {
            reveal_strlit("missing");
            assert("missing"@ =~= status_missing());
        }
        Item {
            id: copy_text(id),
            bundle_id: copy_text(bundle_id),
            name: copy_text(name),
            status: copy_text("missing"),
            quality: Some(copy_text(quality)),
        }
    }

    /// A field-by-field copy.
    pub fn duplicate(&self) -> (r: Item)
        ensures
            r@ == self@,
    {
        Item {
            id: self.id.clone(),
            bundle_id: self.bundle_id.clone(),
            name: self.name.clone(),
            status: self.status.clone(),
            quality: copy_opt_text(&self.quality),
        }
    }
}

} // verus!
