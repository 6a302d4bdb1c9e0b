//! Full desktop sync. Pure: no file system, no window handle.
//!
//! Invariants kept by the sync:
//!
//! 1. The `name` of an existing item is never rewritten, so a user's rename survives.
//! 2. Only items with `source == Desktop` are added or removed; manual items stay.
//! 3. The normalized `path` is unique across the whole configuration, not per
//!    category, so an item the user dragged from the desktop into another
//!    category is not pulled back.
//!
//! Semantics: a new desktop entry goes into the desktop category, unless the
//! user removed it from the dock (its path is on the ignore list); an entry that
//! left the desktop is removed from whatever category holds it; an item the user
//! moved stays where it is.
use vstd::prelude::*;

use crate::config::{
    category_views, desktop_id, desktop_id_chars, desktop_id_spec, find_category, has_category,
    item_views, norm_path, norm_path_spec, AppConfig, Category, CategoryView, ConfigView, Item,
    ItemKind, ItemSource, ItemView,
};
use crate::desktop::{scanned_views, Scanned, ScannedView};
use crate::normalize::{first_index, lemma_first_index};
use crate::order::{
    first_above, insert_by_key, key_lt, lemma_first_above, lemma_first_above_unique, name_key_lt,
    sort_by_key, NameKey,
};
use crate::config::DESKTOP_CATEGORY;
use crate::text::owned;

verus! {

/// What a sync changed.
#[derive(Debug, PartialEq, Eq, Structural)]
pub struct SyncReport {
    pub added: usize,
    pub removed: usize,
    pub adopted: usize,
}

impl Default for SyncReport {
    fn default() -> (r: Self)
        ensures
            r.added == 0 && r.removed == 0 && r.adopted == 0,
    {
        SyncReport { added: 0, removed: 0, adopted: 0 }
    }
}

impl SyncReport {
    /// Whether the sync changed anything.
    pub fn changed(&self) -> (r: bool)
        ensures
            r == (self.added + self.removed + self.adopted > 0),
    {
        self.added > 0 || self.removed > 0 || self.adopted > 0
    }
}

// ---------------------------------------------------------------------------
// The meaning of a sync

/// Normalized paths of the entries that are on the desktop now.
pub open spec fn live_keys(sc: Seq<ScannedView>) -> Set<Seq<char>> {
    Set::new(|k: Seq<char>| exists|i: int| 0 <= i < sc.len() && norm_path_spec(#[trigger] sc[i].path) == k)
}

/// An item survives step 1 unless it is a desktop item whose path left the desktop.
pub open spec fn survives(live: Set<Seq<char>>) -> spec_fn(ItemView) -> bool {
    |it: ItemView| it.source != ItemSource::Desktop || live.contains(norm_path_spec(it.path))
}

pub open spec fn without_stale(c: CategoryView, live: Set<Seq<char>>) -> CategoryView {
    CategoryView { id: c.id, name: c.name, items: c.items.filter(survives(live)) }
}

/// Step 1: drop, from every category, the desktop items that left the desktop.
pub open spec fn after_removal(cats: Seq<CategoryView>, live: Set<Seq<char>>) -> Seq<CategoryView> {
    Seq::new(cats.len(), |i: int| without_stale(cats[i], live))
}

/// How many items step 1 drops.
pub open spec fn removed_count(cats: Seq<CategoryView>, live: Set<Seq<char>>) -> nat
    decreases cats.len(),
{
    if cats.len() == 0 {
        0
    } else {
        removed_count(cats.drop_last(), live) + (cats.last().items.len() - cats.last().items.filter(
            survives(live),
        ).len()) as nat
    }
}

/// `n`, or `usize::MAX` when it does not fit (a saturating count).
pub open spec fn capped(n: nat) -> nat {
    if n <= usize::MAX {
        n
    } else {
        usize::MAX as nat
    }
}

/// Total number of items.
pub open spec fn total_items(cats: Seq<CategoryView>) -> nat
    decreases cats.len(),
{
    if cats.len() == 0 {
        0
    } else {
        total_items(cats.drop_last()) + cats.last().items.len()
    }
}

/// Item `ii` of category `ci` exists.
pub open spec fn at(cats: Seq<CategoryView>, ci: int, ii: int) -> bool {
    0 <= ci < cats.len() && 0 <= ii < cats[ci].items.len()
}

/// Normalized paths of the desktop items among `items`.
pub open spec fn item_desktop_keys(items: Seq<ItemView>) -> Set<Seq<char>> {
    Set::new(
        |k: Seq<char>|
            exists|ii: int|
                0 <= ii < items.len() && #[trigger] items[ii].source == ItemSource::Desktop
                    && norm_path_spec(items[ii].path) == k,
    )
}

/// Normalized paths of the desktop items.
pub open spec fn desktop_keys(cats: Seq<CategoryView>) -> Set<Seq<char>> {
    Set::new(
        |k: Seq<char>|
            exists|ci: int| 0 <= ci < cats.len() && #[trigger] item_desktop_keys(cats[ci].items).contains(k),
    )
}

/// Some item has this normalized path.
pub open spec fn has_key(cats: Seq<CategoryView>, key: Seq<char>) -> bool {
    exists|ci: int, ii: int| at(cats, ci, ii) && norm_path_spec(#[trigger] cats[ci].items[ii].path) == key
}

/// `(ci, ii)` is the first item with this normalized path: in the first
/// category holding one, the first such item.
pub open spec fn is_holder(cats: Seq<CategoryView>, key: Seq<char>, ci: int, ii: int) -> bool {
    &&& at(cats, ci, ii)
    &&& norm_path_spec(cats[ci].items[ii].path) == key
    &&& forall|cj: int, jj: int| 0 <= cj < ci && at(cats, cj, jj) ==> norm_path_spec(#[trigger] cats[cj].items[jj].path) != key
    &&& forall|jj: int| 0 <= jj < ii ==> norm_path_spec(#[trigger] cats[ci].items[jj].path) != key
}

/// The item created for a new desktop entry; its id is derived from its path.
pub open spec fn new_item(e: ScannedView) -> ItemView {
    ItemView {
        id: desktop_id_spec(e.path),
        name: e.name,
        path: e.path,
        kind: e.kind,
        source: ItemSource::Desktop,
    }
}

/// An adopted manual item: now a desktop item with the scanned kind; its name stays.
pub open spec fn adopted_item(x: ItemView, kind: ItemKind) -> ItemView {
    ItemView { id: x.id, name: x.name, path: x.path, kind, source: ItemSource::Desktop }
}

pub open spec fn with_items(c: CategoryView, items: Seq<ItemView>) -> CategoryView {
    CategoryView { id: c.id, name: c.name, items }
}

pub struct ClaimState {
    pub cats: Seq<CategoryView>,
    pub claimed: Set<Seq<char>>,
    /// Normalized paths on the ignore list: never imported again.
    pub ignored: Set<Seq<char>>,
    pub added: nat,
    pub adopted: nat,
}

/// Normalized paths of the ignore list.
pub open spec fn ignored_keys(ignored: Seq<Seq<char>>) -> Set<Seq<char>> {
    Set::new(|k: Seq<char>| exists|t: int| 0 <= t < ignored.len() && norm_path_spec(#[trigger] ignored[t]) == k)
}

/// Step 3 for one entry: an unclaimed path first adopts the first item with
/// that path; otherwise, unless the user removed it from the dock (it is on
/// the ignore list), it becomes a new item of the desktop category (if any).
pub open spec fn claim_one(st: ClaimState, e: ScannedView, desk: Option<int>) -> ClaimState {
    let key = norm_path_spec(e.path);
    if st.claimed.contains(key) {
        st
    } else if has_key(st.cats, key) {
        let (ci, ii) = choose|ci: int, ii: int| is_holder(st.cats, key, ci, ii);
        ClaimState {
            cats: st.cats.update(
                ci,
                with_items(
                    st.cats[ci],
                    st.cats[ci].items.update(ii, adopted_item(st.cats[ci].items[ii], e.kind)),
                ),
            ),
            claimed: st.claimed.insert(key),
            adopted: st.adopted + 1,
            ..st
        }
    } else if st.ignored.contains(key) {
        st
    } else {
        match desk {
            Some(d) => ClaimState {
                cats: st.cats.update(d, with_items(st.cats[d], st.cats[d].items.push(new_item(e)))),
                claimed: st.claimed.insert(key),
                added: st.added + 1,
                ..st
            },
            None => st,
        }
    }
}

/// Step 3 over the entries in scan order.
pub open spec fn claim_all(st: ClaimState, sc: Seq<ScannedView>, desk: Option<int>) -> ClaimState
    decreases sc.len(),
{
    if sc.len() == 0 {
        st
    } else {
        claim_one(claim_all(st, sc.drop_last(), desk), sc.last(), desk)
    }
}

/// Step 3 never changes the ignore list.
pub proof fn lemma_claim_keeps_ignored(st: ClaimState, sc: Seq<ScannedView>, desk: Option<int>)
    ensures
        claim_all(st, sc, desk).ignored == st.ignored,
    decreases sc.len(),
{
    if sc.len() > 0 {
        lemma_claim_keeps_ignored(st, sc.drop_last(), desk);
    }
}

/// Index of the desktop category, if there is one.
pub open spec fn desktop_index(cats: Seq<CategoryView>) -> Option<int> {
    if has_category(cats, desktop_id_chars()) {
        Some(first_index(cats, desktop_id_chars()))
    } else {
        None
    }
}

pub open spec fn item_key() -> spec_fn(ItemView) -> NameKey {
    |x: ItemView| (x.name, x.path)
}

/// Step 4: only the desktop category is sorted; manual categories keep the user's order.
pub open spec fn sorted_desktop(cats: Seq<CategoryView>, desk: Option<int>) -> Seq<CategoryView> {
    match desk {
        Some(d) => cats.update(d, with_items(cats[d], sort_by_key(cats[d].items, item_key()))),
        None => cats,
    }
}

pub struct SyncOutcome {
    pub config: ConfigView,
    pub added: nat,
    pub removed: nat,
    pub adopted: nat,
}

/// The configuration and counts after merging the desktop snapshot `sc` into `cfg`.
pub open spec fn sync_spec(cfg: ConfigView, sc: Seq<ScannedView>) -> SyncOutcome {
    let live = live_keys(sc);
    let c1 = after_removal(cfg.categories, live);
    let desk = desktop_index(c1);
    let st = claim_all(
        ClaimState {
            cats: c1,
            claimed: desktop_keys(c1),
            ignored: ignored_keys(cfg.ignored),
            added: 0,
            adopted: 0,
        },
        sc,
        desk,
    );
    SyncOutcome {
        config: ConfigView {
            schema_version: cfg.schema_version,
            categories: sorted_desktop(st.cats, desk),
            recent: cfg.recent,
            settings: cfg.settings,
            ignored: cfg.ignored,
        },
        added: st.added,
        removed: removed_count(cfg.categories, live),
        adopted: st.adopted,
    }
}

// ---------------------------------------------------------------------------
// Execution

/// Sorts items stably by (lower-cased name, path).
pub fn sort_items(v: &mut Vec<Item>)
    ensures
        item_views(final(v)@) == sort_by_key(item_views(old(v)@), item_key()),
{
    let ghost orig = item_views(v@);
    let n = v.len();
    let mut i: usize = 0;
    while i < n
        invariant
            i <= n,
            v.len() == n,
            orig.len() == n,
            item_views(v@).take(i as int) == sort_by_key(orig.take(i as int), item_key()),
            item_views(v@).skip(i as int) == orig.skip(i as int),
        decreases n - i,
    {
        let ghost pre = item_views(v@);
        let x = v.remove(i);
        let ghost sorted = sort_by_key(orig.take(i as int), item_key());
        assert(x@ == orig[i as int]) by {
            assert(pre.skip(i as int)[0] == pre[i as int]);
        }
        let ghost vr = v@;
        assert(item_views(vr) =~= pre.remove(i as int));
        let mut j: usize = 0;
        while j < i && !name_key_lt(&x.name, &x.path, &v[j].name, &v[j].path)
            invariant
                v@ == vr,
                j <= i < n,
                v.len() == n - 1,
                item_views(v@).take(i as int) == sorted,
                forall|t: int| 0 <= t < j ==> !key_lt(item_key()(x@), item_key()(#[trigger] sorted[t])),
            decreases i - j,
        {
            assert(item_views(v@)[j as int] == sorted[j as int]);
            j += 1;
        }
        proof {
            if j < i {
                assert(item_views(v@)[j as int] == sorted[j as int]);
            }
            assert(sorted.len() == i) by {
                crate::order::lemma_sort_len(orig.take(i as int), item_key());
            }
            lemma_first_above_unique(sorted, x@, item_key(), j as int);
        }
        let ghost mid = item_views(v@);
        v.insert(j, x);
        proof {
            let t = orig.take(i as int + 1);
            assert(t.drop_last() =~= orig.take(i as int));
            assert(t.last() == x@);
            assert(item_views(v@) =~= mid.insert(j as int, x@));
            assert(item_views(v@).take(i as int + 1) =~= sorted.insert(j as int, x@));
            assert forall|t: int| 0 <= t < n - i - 1 implies #[trigger] item_views(v@).skip(
                i as int + 1,
            )[t] == orig.skip(i as int + 1)[t] by {
                assert(item_views(v@)[i + 1 + t] == mid[i + t]);
                assert(mid[i + t] == pre[i + 1 + t]);
                assert(pre.skip(i as int)[1 + t] == orig.skip(i as int)[1 + t]);
            }
            assert(item_views(v@).skip(i as int + 1) =~= orig.skip(i as int + 1));
        }
        i += 1;
    }
    assert(orig.take(n as int) =~= orig);
    assert(item_views(v@).take(n as int) =~= item_views(v@));
}

/// Normalized paths held in `v`.
pub open spec fn key_set(v: Seq<String>) -> Set<Seq<char>> {
    Set::new(|k: Seq<char>| exists|t: int| 0 <= t < v.len() && (#[trigger] v[t])@ == k)
}

fn in_keys(keys: &Vec<String>, key: &String) -> (r: bool)
    ensures
        r == key_set(keys@).contains(key@),
{
    let mut t: usize = 0;
    while t < keys.len()
        invariant
            t <= keys.len(),
            forall|u: int| 0 <= u < t ==> (#[trigger] keys@[u])@ != key@,
        decreases keys.len() - t,
    {
        if keys[t] == *key {
            assert(keys@[t as int]@ == key@);
            return true;
        }
        t += 1;
    }
    false
}

/// Keeps the items that survive step 1.
fn drop_stale(items: Vec<Item>, live: &Vec<String>, Ghost(lk): Ghost<Set<Seq<char>>>) -> (r: Vec<
    Item,
>)
    requires
        key_set(live@) == lk,
    ensures
        item_views(r@) == item_views(items@).filter(survives(lk)),
{
    let ghost all = item_views(items@);
    let mut rest = items;
    let mut kept: Vec<Item> = Vec::new();
    let ghost mut i: int = 0;
    while rest.len() > 0
        invariant
            0 <= i <= all.len(),
            item_views(rest@) == all.skip(i),
            item_views(kept@) == all.take(i).filter(survives(lk)),
            key_set(live@) == lk,
        decreases rest.len(),
    {
        assert(item_views(rest@).len() == rest@.len());
        assert(i < all.len());
        let ghost rv = item_views(rest@);
        let it = rest.remove(0);
        proof {
            assert(it@ == all[i]) by {
                assert(rv[0] == it@);
                assert(all.skip(i)[0] == all[i]);
            }
            assert(all.take(i + 1) =~= all.take(i).push(all[i]));
            all.take(i).lemma_filter_push(all[i], survives(lk));
            assert(all.skip(i + 1) =~= all.skip(i).drop_first());
        }
        let ghost before = item_views(kept@);
        let keep = match it.source {
            ItemSource::Manual => true,
            ItemSource::Desktop => {
                let key = norm_path(it.path.as_str());
                in_keys(live, &key)
            },
        };
        if keep {
            kept.push(it);
            assert(item_views(kept@) =~= before.push(all[i]));
        }
        proof {
            i = i + 1;
        }
    }
    assert(all.take(i) =~= all);
    kept
}

/// First item whose normalized path is `key`.
fn find_key_in_items(items: &Vec<Item>, key: &String) -> (r: Option<usize>)
    ensures
        match r {
            Some(ii) => ii < items.len() && norm_path_spec(items@[ii as int]@.path) == key@
                && forall|jj: int| 0 <= jj < ii ==> norm_path_spec(#[trigger] items@[jj]@.path) != key@,
            None => forall|jj: int| 0 <= jj < items.len() ==> norm_path_spec(#[trigger] items@[jj]@.path) != key@,
        },
{
    let mut ii: usize = 0;
    while ii < items.len()
        invariant
            ii <= items.len(),
            forall|jj: int| 0 <= jj < ii ==> norm_path_spec(#[trigger] items@[jj]@.path) != key@,
        decreases items.len() - ii,
    {
        if norm_path(items[ii].path.as_str()) == *key {
            return Some(ii);
        }
        ii += 1;
    }
    None
}

/// Replaces the items of category `ci`.
pub(crate) fn replace_items(cats: &mut Vec<Category>, ci: usize, items: Vec<Item>) -> (old_items: Vec<Item>)
    requires
        ci < old(cats).len(),
    ensures
        final(cats).len() == old(cats).len(),
        category_views(final(cats)@) == category_views(old(cats)@).update(
            ci as int,
            with_items(category_views(old(cats)@)[ci as int], item_views(items@)),
        ),
        item_views(old_items@) == category_views(old(cats)@)[ci as int].items,
{
    let ghost before = category_views(cats@);
    let mut cat = cats.remove(ci);
    let mut it = items;
    std::mem::swap(&mut cat.items, &mut it);
    cats.insert(ci, cat);
    assert(category_views(cats@) =~= before.update(
        ci as int,
        with_items(before[ci as int], item_views(items@)),
    ));
    it
}

proof fn lemma_key_set_push(v: Seq<String>, s: String)
    ensures
        key_set(v.push(s)) == key_set(v).insert(s@),
{
    assert forall|k: Seq<char>| key_set(v.push(s)).contains(k) implies key_set(v).insert(s@).contains(k) by {
        let t = choose|t: int| 0 <= t < v.push(s).len() && (#[trigger] v.push(s)[t])@ == k;
        if t < v.len() {
            assert(v[t]@ == k);
        }
    }
    assert forall|k: Seq<char>| key_set(v).insert(s@).contains(k) implies key_set(v.push(s)).contains(k) by {
        if k == s@ {
            assert(v.push(s)[v.len() as int]@ == k);
        } else {
            let t = choose|t: int| 0 <= t < v.len() && (#[trigger] v[t])@ == k;
            assert(v.push(s)[t]@ == k);
        }
    }
    assert(key_set(v.push(s)) =~= key_set(v).insert(s@));
}

pub proof fn lemma_item_desktop_keys_push(items: Seq<ItemView>, x: ItemView)
    ensures
        item_desktop_keys(items.push(x)) == if x.source == ItemSource::Desktop {
            item_desktop_keys(items).insert(norm_path_spec(x.path))
        } else {
            item_desktop_keys(items)
        },
{
    let p = items.push(x);
    let r = if x.source == ItemSource::Desktop {
        item_desktop_keys(items).insert(norm_path_spec(x.path))
    } else {
        item_desktop_keys(items)
    };
    assert forall|k: Seq<char>| item_desktop_keys(p).contains(k) implies r.contains(k) by {
        let ii = choose|ii: int|
            0 <= ii < p.len() && #[trigger] p[ii].source == ItemSource::Desktop
                && norm_path_spec(p[ii].path) == k;
        if ii < items.len() {
            assert(items[ii] == p[ii]);
        }
    }
    assert forall|k: Seq<char>| r.contains(k) implies item_desktop_keys(p).contains(k) by {
        if x.source == ItemSource::Desktop && k == norm_path_spec(x.path) {
            assert(p[items.len() as int] == x);
        } else {
            let ii = choose|ii: int|
                0 <= ii < items.len() && #[trigger] items[ii].source == ItemSource::Desktop
                    && norm_path_spec(items[ii].path) == k;
            assert(p[ii] == items[ii]);
        }
    }
    assert(item_desktop_keys(p) =~= r);
}

proof fn lemma_desktop_keys_push(cats: Seq<CategoryView>, c: CategoryView)
    ensures
        desktop_keys(cats.push(c)) == desktop_keys(cats).union(item_desktop_keys(c.items)),
{
    let p = cats.push(c);
    assert forall|k: Seq<char>| desktop_keys(p).contains(k) implies desktop_keys(cats).union(
        item_desktop_keys(c.items),
    ).contains(k) by {
        let ci = choose|ci: int| 0 <= ci < p.len() && #[trigger] item_desktop_keys(p[ci].items).contains(k);
        if ci < cats.len() {
            assert(p[ci] == cats[ci]);
        }
    }
    assert forall|k: Seq<char>| desktop_keys(cats).union(item_desktop_keys(c.items)).contains(k)
        implies desktop_keys(p).contains(k) by {
        if item_desktop_keys(c.items).contains(k) {
            assert(p[cats.len() as int] == c);
        } else {
            let ci = choose|ci: int| 0 <= ci < cats.len() && #[trigger] item_desktop_keys(cats[ci].items).contains(k);
            assert(p[ci] == cats[ci]);
        }
    }
    assert(desktop_keys(p) =~= desktop_keys(cats).union(item_desktop_keys(c.items)));
}

proof fn lemma_removed_prefix(cats: Seq<CategoryView>, live: Set<Seq<char>>, k: int)
    requires
        0 <= k <= cats.len(),
    ensures
        removed_count(cats.take(k), live) <= removed_count(cats, live) <= total_items(cats),
    decreases cats.len(),
{
    if cats.len() > 0 {
        cats.last().items.lemma_filter_len(survives(live));
        if k == cats.len() {
            assert(cats.take(k) =~= cats);
            lemma_removed_prefix(cats.drop_last(), live, k - 1);
        } else {
            assert(cats.take(k) =~= cats.drop_last().take(k));
            lemma_removed_prefix(cats.drop_last(), live, k);
        }
    }
}

proof fn lemma_holder_unique(cats: Seq<CategoryView>, key: Seq<char>, a: int, b: int, c: int, d: int)
    requires
        is_holder(cats, key, a, b),
        is_holder(cats, key, c, d),
    ensures
        a == c && b == d,
{
    if a < c {
        assert(at(cats, a, b));
        assert(norm_path_spec(cats[a].items[b].path) != key);
    } else if c < a {
        assert(at(cats, c, d));
        assert(norm_path_spec(cats[c].items[d].path) != key);
    } else if b < d {
        assert(norm_path_spec(cats[c].items[b].path) != key);
    } else if d < b {
        assert(norm_path_spec(cats[a].items[d].path) != key);
    }
}

/// Merges the desktop state described by `scanned` into `cfg`.
///
/// The caller must have made sure the scan succeeded: `scanned` has to be a
/// trustworthy snapshot of the desktop, or step 1 deletes items wrongly.
#[verifier::rlimit(40)]
pub fn sync(cfg: &mut AppConfig, scanned: &[Scanned]) -> (report: SyncReport)
    ensures
        ({
            let out = sync_spec(old(cfg)@, scanned_views(scanned@));
            &&& final(cfg)@ == out.config
            &&& report.added == out.added
            &&& report.removed == capped(out.removed)
            &&& report.adopted == out.adopted
            &&& out.removed <= total_items(old(cfg)@.categories)
        }),
{
    let ghost start = cfg@;
    let ghost sc = scanned_views(scanned@);
    let ghost lk = live_keys(sc);
    let n = cfg.categories.len();

    // Normalized paths of what is on the desktop now.
    let mut live: Vec<String> = Vec::new();
    let mut i: usize = 0;
    while i < scanned.len()
        invariant
            i <= scanned.len(),
            sc == scanned_views(scanned@),
            live@.len() == i,
            forall|t: int| 0 <= t < i ==> (#[trigger] live@[t])@ == norm_path_spec(sc[t].path),
        decreases scanned.len() - i,
    {
        live.push(norm_path(scanned[i].path.as_str()));
        i += 1;
    }
    assert(key_set(live@) =~= lk) by {
        assert forall|k: Seq<char>| key_set(live@).contains(k) implies lk.contains(k) by {
            let t = choose|t: int| 0 <= t < live@.len() && (#[trigger] live@[t])@ == k;
            assert(norm_path_spec(sc[t].path) == k);
        }
        assert forall|k: Seq<char>| lk.contains(k) implies key_set(live@).contains(k) by {
            let t = choose|t: int| 0 <= t < sc.len() && norm_path_spec(#[trigger] sc[t].path) == k;
            assert(live@[t]@ == k);
        }
    }

    // Step 1: remove desktop items whose path left the desktop, from every category.
    // Manual items are never touched here.
    let ghost orig = start.categories;
    let mut removed: usize = 0;
    let mut ci: usize = 0;
    while ci < n
        invariant
            ci <= n,
            n == orig.len(),
            category_views(cfg.categories@).len() == n,
            cfg.categories.len() == n,
            forall|j: int| 0 <= j < ci ==> #[trigger] category_views(cfg.categories@)[j] == without_stale(orig[j], lk),
            forall|j: int| ci <= j < n ==> #[trigger] category_views(cfg.categories@)[j] == orig[j],
            removed == capped(removed_count(orig.take(ci as int), lk)),
            key_set(live@) == lk,
            cfg@.recent == start.recent,
            cfg@.ignored == start.ignored,
            cfg@.settings == start.settings,
            cfg@.schema_version == start.schema_version,
        decreases n - ci,
    {
        let ghost cur = category_views(cfg.categories@);
        let items = replace_items(&mut cfg.categories, ci, Vec::new());
        let before = items.len();
        let kept = drop_stale(items, &live, Ghost(lk));
        proof {
            orig[ci as int].items.lemma_filter_len(survives(lk));
            lemma_removed_prefix(orig, lk, ci + 1);
            assert(orig.take(ci + 1).drop_last() =~= orig.take(ci as int));
        }
        removed = removed.saturating_add(before - kept.len());
        let _ = replace_items(&mut cfg.categories, ci, kept);
        ci += 1;
    }
    let ghost c1 = category_views(cfg.categories@);
    assert(c1 =~= after_removal(orig, lk));
    assert(orig.take(n as int) =~= orig);
    proof {
        lemma_removed_prefix(orig, lk, n as int);
    }

    // Step 2: the paths already claimed by a desktop item, in any category.
    let mut claimed: Vec<String> = Vec::new();
    let mut ci: usize = 0;
    while ci < n
        invariant
            ci <= n,
            category_views(cfg.categories@) == c1,
            c1.len() == n,
            cfg.categories.len() == n,
            key_set(claimed@) == desktop_keys(c1.take(ci as int)),
        decreases n - ci,
    {
        let mut ii: usize = 0;
        let ghost outer = key_set(claimed@);
        let ghost items = c1[ci as int].items;
        assert(cfg.categories@[ci as int]@ == c1[ci as int]);
        while ii < cfg.categories[ci].items.len()
            invariant
                ci < n,
                cfg.categories.len() == n,
                items == c1[ci as int].items,
                ii <= items.len(),
                category_views(cfg.categories@) == c1,
                cfg.categories@[ci as int]@ == c1[ci as int],
                key_set(claimed@) == outer.union(item_desktop_keys(items.take(ii as int))),
            decreases items.len() - ii,
        {
            let it = &cfg.categories[ci].items[ii];
            assert(it@ == items[ii as int]);
            let ghost before = claimed@;
            if it.source == ItemSource::Desktop {
                let key = norm_path(it.path.as_str());
                claimed.push(key);
                proof {
                    lemma_key_set_push(before, key);
                }
            }
            proof {
                lemma_item_desktop_keys_push(items.take(ii as int), items[ii as int]);
                assert(items.take(ii + 1) =~= items.take(ii as int).push(items[ii as int]));
            }
            ii += 1;
        }
        proof {
            assert(items.take(items.len() as int) =~= items);
            lemma_desktop_keys_push(c1.take(ci as int), c1[ci as int]);
            assert(c1.take(ci + 1) =~= c1.take(ci as int).push(c1[ci as int]));
        }
        ci += 1;
    }
    assert(c1.take(n as int) =~= c1);

    // Step 3: claim every unclaimed path, by adopting a manual item with the
    // same path or by adding a new item to the desktop category.
    let desktop_key = owned(DESKTOP_CATEGORY.0);
    proof {
        reveal_strlit("desktop");
        assert(desktop_key@ =~= desktop_id_chars());
    }
    let desk: Option<usize> = find_category(&cfg.categories, &desktop_key);
    let ghost desk_v: Option<int> = desktop_index(c1);
    proof {
        match desk {
            Some(d) => {
                lemma_first_index(c1, desktop_id_chars(), d as int);
                assert(c1[d as int].id == desktop_id_chars());
            },
            None => {},
        }
    }
    // The paths the user removed from the dock: they are not imported again.
    let mut ign: Vec<String> = Vec::new();
    let mut t: usize = 0;
    while t < cfg.ignored.len()
        invariant
            t <= cfg.ignored.len(),
            cfg@.ignored == start.ignored,
            ign@.len() == t,
            forall|u: int| 0 <= u < t ==> (#[trigger] ign@[u])@ == norm_path_spec(start.ignored[u]),
        decreases cfg.ignored.len() - t,
    {
        ign.push(norm_path(cfg.ignored[t].as_str()));
        t += 1;
    }
    assert(key_set(ign@) =~= ignored_keys(start.ignored)) by {
        assert forall|k: Seq<char>| key_set(ign@).contains(k) implies ignored_keys(start.ignored).contains(k) by {
            let u = choose|u: int| 0 <= u < ign@.len() && (#[trigger] ign@[u])@ == k;
            assert(norm_path_spec(start.ignored[u]) == k);
        }
        assert forall|k: Seq<char>| ignored_keys(start.ignored).contains(k) implies key_set(ign@).contains(k) by {
            let u = choose|u: int| 0 <= u < start.ignored.len() && norm_path_spec(#[trigger] start.ignored[u]) == k;
            assert(ign@[u]@ == k);
        }
    }
    let ghost init = ClaimState {
        cats: c1,
        claimed: desktop_keys(c1),
        ignored: ignored_keys(start.ignored),
        added: 0,
        adopted: 0,
    };
    let mut added: usize = 0;
    let mut adopted: usize = 0;
    let mut i: usize = 0;
    while i < scanned.len()
        invariant
            i <= scanned.len(),
            sc == scanned_views(scanned@),
            cfg.categories.len() == n,
            category_views(cfg.categories@).len() == n,
            desk_v == desktop_index(c1),
            match desk {
                Some(d) => desk_v == Some(d as int) && d < n,
                None => desk_v is None,
            },
            ({
                let st = claim_all(init, sc.take(i as int), desk_v);
                &&& category_views(cfg.categories@) == st.cats
                &&& key_set(claimed@) == st.claimed
                &&& added == st.added
                &&& adopted == st.adopted
            }),
            added + adopted <= i,
            key_set(ign@) == init.ignored,
            cfg@.recent == start.recent,
            cfg@.ignored == start.ignored,
            cfg@.settings == start.settings,
            cfg@.schema_version == start.schema_version,
        decreases scanned.len() - i,
    {
        let ghost st = claim_all(init, sc.take(i as int), desk_v);
        proof {
            lemma_claim_keeps_ignored(init, sc.take(i as int), desk_v);
            assert(sc.take(i + 1).drop_last() =~= sc.take(i as int));
            assert(sc.take(i + 1).last() == sc[i as int]);
        }
        let e = &scanned[i];
        assert(e@ == sc[i as int]);
        let key = norm_path(e.path.as_str());
        if !in_keys(&claimed, &key) {
            // Look for the first item with this path, in any category.
            let mut found: Option<(usize, usize)> = None;
            let mut cj: usize = 0;
            while cj < n && found.is_none()
                invariant
                    cj <= n,
                    cfg.categories.len() == n,
                    category_views(cfg.categories@) == st.cats,
                    key@ == norm_path_spec(sc[i as int].path),
                    match found {
                        Some((a, b)) => is_holder(st.cats, key@, a as int, b as int),
                        None => forall|c: int, jj: int|
                            0 <= c < cj && at(st.cats, c, jj) ==> norm_path_spec(
                                #[trigger] st.cats[c].items[jj].path,
                            ) != key@,
                    },
                decreases n - cj,
            {
                assert(cfg.categories@[cj as int]@ == st.cats[cj as int]);
                match find_key_in_items(&cfg.categories[cj].items, &key) {
                    Some(ii) => {
                        found = Some((cj, ii));
                    },
                    None => {},
                }
                cj += 1;
            }
            match found {
                Some((a, b)) => {
                    // Adopt: the manual item becomes a desktop item in place; its name stays.
                    proof {
                        assert(has_key(st.cats, key@));
                        let (x, y) = choose|x: int, y: int| is_holder(st.cats, key@, x, y);
                        lemma_holder_unique(st.cats, key@, a as int, b as int, x, y);
                    }
                    let mut items = replace_items(&mut cfg.categories, a, Vec::new());
                    let mut it = items.remove(b);
                    it.source = ItemSource::Desktop;
                    it.kind = e.kind;
                    items.insert(b, it);
                    let ghost olds = st.cats[a as int].items;
                    assert(item_views(items@) =~= olds.update(
                        b as int,
                        adopted_item(olds[b as int], e.kind),
                    ));
                    let _ = replace_items(&mut cfg.categories, a, items);
                    let ghost cb = claimed@;
                    claimed.push(key);
                    proof {
                        lemma_key_set_push(cb, key);
                    }
                    adopted = adopted + 1;
                },
                None => {
                    proof {
                        assert(!has_key(st.cats, key@));
                    }
                    if in_keys(&ign, &key) {
                        // Removed from the dock by the user: not imported again.
                    } else {
                    match desk {
                        Some(d) => {
                            let item = Item {
                                id: desktop_id(e.path.as_str()),
                                name: e.name.clone(),
                                path: e.path.clone(),
                                kind: e.kind,
                                source: ItemSource::Desktop,
                            };
                            assert(item@ == new_item(sc[i as int]));
                            let mut items = replace_items(&mut cfg.categories, d, Vec::new());
                            let ghost olds = item_views(items@);
                            items.push(item);
                            assert(item_views(items@) =~= olds.push(new_item(sc[i as int])));
                            let _ = replace_items(&mut cfg.categories, d, items);
                            let ghost cb = claimed@;
                            claimed.push(key);
                            proof {
                                lemma_key_set_push(cb, key);
                            }
                            added = added + 1;
                        },
                        None => {},
                    }
                    }
                },
            }
        }
        i += 1;
    }
    assert(sc.take(scanned.len() as int) =~= sc);

    let ghost fin = claim_all(init, sc, desk_v);
    assert(category_views(cfg.categories@) == fin.cats);
    // Step 4: only the desktop category is sorted.
    match desk {
        Some(d) => {
            let mut items = replace_items(&mut cfg.categories, d, Vec::new());
            sort_items(&mut items);
            let _ = replace_items(&mut cfg.categories, d, items);
            assert(category_views(cfg.categories@) =~= sorted_desktop(fin.cats, desk_v));
        },
        None => {},
    }
    let ghost out = sync_spec(start, sc);
    assert(cfg@.categories == out.config.categories);
    assert(removed == capped(out.removed));
    assert(added == out.added);
    SyncReport { added, removed, adopted }
}

} // verus!
