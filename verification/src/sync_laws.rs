//! What holds of every sync: the laws behind the invariants of the sync engine.
use vstd::prelude::*;

use crate::config::{desktop_id_chars, has_category, is_first_with_id, norm_path_spec, CategoryView, ConfigView, ItemSource, ItemView};
use crate::normalize::{first_index, lemma_first_index, lemma_has_first};
use crate::desktop::ScannedView;
use crate::order::{first_above, lemma_first_above, lemma_sort_contains, lemma_sort_multiset, lemma_sort_sorted, lemma_sort_sorted_identity, sort_by_key, sorted_by_key};
use crate::sync::{
    adopted_item, after_removal, at, claim_all, claim_one, desktop_index, desktop_keys, has_key,
    ignored_keys, is_holder, lemma_claim_keeps_ignored, item_desktop_keys, item_key, lemma_item_desktop_keys_push, live_keys, new_item,
    removed_count, sorted_desktop, survives, sync_spec, with_items, without_stale, ClaimState,
};

verus! {

// ---------------------------------------------------------------------------
// A configuration in step with a desktop snapshot

/// Every desktop item has a path that is on the desktop.
pub open spec fn desktop_items_live(cats: Seq<CategoryView>, live: Set<Seq<char>>) -> bool {
    forall|ci: int, ii: int|
        at(cats, ci, ii) && #[trigger] cats[ci].items[ii].source == ItemSource::Desktop ==> live.contains(
            norm_path_spec(cats[ci].items[ii].path),
        )
}

/// Every path on the desktop that some item has belongs to a desktop item.
pub open spec fn live_paths_claimed(cats: Seq<CategoryView>, live: Set<Seq<char>>) -> bool {
    forall|k: Seq<char>| #[trigger] live.contains(k) && has_key(cats, k) ==> desktop_keys(cats).contains(k)
}

/// Every path on the desktop has an item, but those on the ignore list `ign`.
pub open spec fn live_paths_present(cats: Seq<CategoryView>, live: Set<Seq<char>>, ign: Set<Seq<char>>) -> bool {
    forall|k: Seq<char>| #[trigger] live.contains(k) && !ign.contains(k) ==> has_key(cats, k)
}

/// The desktop category, if any, is sorted by name.
pub open spec fn desktop_sorted(cats: Seq<CategoryView>) -> bool {
    desktop_index(cats) matches Some(d) ==> sorted_by_key(cats[d].items, item_key())
}

/// The categories are in step with the desktop snapshot `sc`, given the
/// ignore list `ign`: a sync with that snapshot has nothing left to do.
pub open spec fn in_sync(cats: Seq<CategoryView>, ign: Set<Seq<char>>, sc: Seq<ScannedView>) -> bool {
    let live = live_keys(sc);
    &&& desktop_items_live(cats, live)
    &&& live_paths_claimed(cats, live)
    &&& (desktop_index(cats) is Some ==> live_paths_present(cats, live, ign))
    &&& desktop_sorted(cats)
}

/// The desktop index, when there is one, points at a category with the desktop id.
pub proof fn lemma_desktop_index_valid(cats: Seq<CategoryView>)
    ensures
        desktop_index(cats) matches Some(d) ==> 0 <= d < cats.len() && cats[d].id == desktop_id_chars(),
{
    if has_category(cats, desktop_id_chars()) {
        lemma_has_first(cats, desktop_id_chars());
    }
}

// ---------------------------------------------------------------------------
// Step 1 on categories whose desktop items are all live

proof fn lemma_filter_all<A>(s: Seq<A>, p: spec_fn(A) -> bool)
    requires
        forall|i: int| 0 <= i < s.len() ==> #[trigger] p(s[i]),
    ensures
        s.filter(p) == s,
    decreases s.len(),
{
    reveal(Seq::filter);
    if s.len() > 0 {
        let q = s.drop_last();
        assert forall|i: int| 0 <= i < q.len() implies #[trigger] p(q[i]) by {
            assert(q[i] == s[i]);
        }
        lemma_filter_all(q, p);
        assert(p(s[s.len() - 1]));
        assert(q.push(s.last()) =~= s);
    }
}

proof fn lemma_removal_noop(cats: Seq<CategoryView>, live: Set<Seq<char>>)
    requires
        desktop_items_live(cats, live),
    ensures
        after_removal(cats, live) == cats,
        removed_count(cats, live) == 0,
    decreases cats.len(),
{
    assert forall|ci: int| 0 <= ci < cats.len() implies #[trigger] cats[ci].items.filter(survives(live))
        == cats[ci].items by {
        assert forall|ii: int| 0 <= ii < cats[ci].items.len() implies #[trigger] survives(live)(
            cats[ci].items[ii],
        ) by {
            if cats[ci].items[ii].source == ItemSource::Desktop {
                assert(at(cats, ci, ii));
            }
        }
        lemma_filter_all(cats[ci].items, survives(live));
    }
    assert(after_removal(cats, live) =~= cats) by {
        assert forall|ci: int| 0 <= ci < cats.len() implies #[trigger] after_removal(cats, live)[ci]
            == cats[ci] by {
            assert(cats[ci].items.filter(survives(live)) == cats[ci].items);
        }
    }
    if cats.len() > 0 {
        let q = cats.drop_last();
        assert forall|ci: int, ii: int|
            at(q, ci, ii) && #[trigger] q[ci].items[ii].source == ItemSource::Desktop implies live.contains(
            norm_path_spec(q[ci].items[ii].path),
        ) by {
            assert(q[ci] == cats[ci]);
            assert(at(cats, ci, ii));
        }
        lemma_removal_noop(q, live);
        assert(cats[cats.len() - 1].items.filter(survives(live)) == cats[cats.len() - 1].items);
    }
}

// ---------------------------------------------------------------------------
// Step 3 when every live path is already claimed (or has nowhere to go)

/// Entry `e` is claimed in `st`, or has no item and either no desktop
/// category to go to or is on the ignore list.
pub open spec fn settled(st: ClaimState, e: ScannedView, desk: Option<int>) -> bool {
    let k = norm_path_spec(e.path);
    ||| st.claimed.contains(k)
    ||| (desk is None || st.ignored.contains(k)) && !has_key(st.cats, k)
}

/// Every entry of `sc` is settled in `st`.
pub open spec fn all_settled(st: ClaimState, sc: Seq<ScannedView>, desk: Option<int>) -> bool {
    forall|i: int| 0 <= i < sc.len() ==> #[trigger] settled(st, sc[i], desk)
}

proof fn lemma_claim_settled(st: ClaimState, sc: Seq<ScannedView>, desk: Option<int>)
    requires
        all_settled(st, sc, desk),
    ensures
        claim_all(st, sc, desk) == st,
    decreases sc.len(),
{
    if sc.len() > 0 {
        let q = sc.drop_last();
        assert forall|i: int| 0 <= i < q.len() implies #[trigger] settled(st, q[i], desk) by {
            assert(q[i] == sc[i]);
        }
        lemma_claim_settled(st, q, desk);
        assert(settled(st, sc[sc.len() - 1], desk));
    }
}

/// A sync on categories in step with the snapshot changes nothing and
/// reports nothing.
pub proof fn lemma_sync_in_sync_noop(cfg: ConfigView, sc: Seq<ScannedView>)
    requires
        in_sync(cfg.categories, ignored_keys(cfg.ignored), sc),
    ensures
        sync_spec(cfg, sc).config == cfg,
        sync_spec(cfg, sc).added == 0,
        sync_spec(cfg, sc).removed == 0,
        sync_spec(cfg, sc).adopted == 0,
{
    let cats = cfg.categories;
    let live = live_keys(sc);
    lemma_removal_noop(cats, live);
    let c1 = after_removal(cats, live);
    let desk = desktop_index(c1);
    let st0 = ClaimState { cats: c1, claimed: desktop_keys(c1), ignored: ignored_keys(cfg.ignored), added: 0, adopted: 0 };
    assert forall|i: int| 0 <= i < sc.len() implies #[trigger] settled(st0, sc[i], desk) by {
        let k = norm_path_spec(sc[i].path);
        assert(live.contains(k));
        if has_key(cats, k) {
        } else if desk is Some && !st0.ignored.contains(k) {
        }
    }
    lemma_claim_settled(st0, sc, desk);
    match desk {
        Some(d) => {
            lemma_desktop_index_valid(c1);
            lemma_sort_sorted_identity(cats[d].items, item_key());
            assert(sorted_desktop(cats, desk) =~= cats);
        },
        None => {},
    }
    assert(sync_spec(cfg, sc).config =~= cfg);
}


// ---------------------------------------------------------------------------
// What step 3 keeps, entry after entry

/// Same number of categories, with the same ids and names.
pub open spec fn same_shape(a: Seq<CategoryView>, b: Seq<CategoryView>) -> bool {
    &&& a.len() == b.len()
    &&& forall|ci: int| 0 <= ci < a.len() ==> (#[trigger] a[ci]).id == b[ci].id && a[ci].name == b[ci].name
}

pub open spec fn claim_inv(
    st: ClaimState,
    c1: Seq<CategoryView>,
    p: Seq<ScannedView>,
    live: Set<Seq<char>>,
    desk: Option<int>,
) -> bool {
    &&& same_shape(st.cats, c1)
    &&& st.claimed == desktop_keys(st.cats)
    &&& desktop_items_live(st.cats, live)
    &&& all_settled(st, p, desk)
    &&& (desk matches Some(d) ==> 0 <= d < c1.len())
}

proof fn lemma_first_item(items: Seq<ItemView>, key: Seq<char>)
    requires
        exists|ii: int| 0 <= ii < items.len() && norm_path_spec(#[trigger] items[ii].path) == key,
    ensures
        exists|ii: int|
            0 <= ii < items.len() && norm_path_spec(#[trigger] items[ii].path) == key && forall|jj: int|
                0 <= jj < ii ==> norm_path_spec(#[trigger] items[jj].path) != key,
    decreases items.len(),
{
    let q = items.drop_last();
    if exists|ii: int| 0 <= ii < q.len() && norm_path_spec(#[trigger] q[ii].path) == key {
        lemma_first_item(q, key);
        let ii = choose|ii: int|
            0 <= ii < q.len() && norm_path_spec(#[trigger] q[ii].path) == key && forall|jj: int|
                0 <= jj < ii ==> norm_path_spec(#[trigger] q[jj].path) != key;
        assert(items[ii] == q[ii]);
        assert forall|jj: int| 0 <= jj < ii implies norm_path_spec(#[trigger] items[jj].path) != key by {
            assert(items[jj] == q[jj]);
        }
    } else {
        let ii = items.len() - 1;
        let w = choose|w: int| 0 <= w < items.len() && norm_path_spec(#[trigger] items[w].path) == key;
        if w < ii {
            assert(q[w] == items[w]);
        }
        assert forall|jj: int| 0 <= jj < ii implies norm_path_spec(#[trigger] items[jj].path) != key by {
            assert(items[jj] == q[jj]);
        }
        assert(norm_path_spec(items[ii].path) == key);
    }
}

/// Some item has the path: then there is a first one.
pub proof fn lemma_holder_exists(cats: Seq<CategoryView>, key: Seq<char>)
    requires
        has_key(cats, key),
    ensures
        exists|ci: int, ii: int| is_holder(cats, key, ci, ii),
    decreases cats.len(),
{
    let q = cats.drop_last();
    if has_key(q, key) {
        lemma_holder_exists(q, key);
        let (ci, ii) = choose|ci: int, ii: int| is_holder(q, key, ci, ii);
        assert(q[ci] == cats[ci]);
        assert forall|cj: int, jj: int| 0 <= cj < ci && at(cats, cj, jj) implies norm_path_spec(
            #[trigger] cats[cj].items[jj].path,
        ) != key by {
            assert(q[cj] == cats[cj]);
            assert(at(q, cj, jj));
        }
        assert(is_holder(cats, key, ci, ii));
    } else {
        let ci = cats.len() - 1;
        let (wc, wi) = choose|wc: int, wi: int| at(cats, wc, wi) && norm_path_spec(#[trigger] cats[wc].items[wi].path) == key;
        if wc < ci {
            assert(q[wc] == cats[wc]);
            assert(at(q, wc, wi));
        }
        assert(norm_path_spec(cats[ci].items[wi].path) == key);
        lemma_first_item(cats[ci].items, key);
        let ii = choose|ii: int|
            0 <= ii < cats[ci].items.len() && norm_path_spec(#[trigger] cats[ci].items[ii].path) == key
                && forall|jj: int| 0 <= jj < ii ==> norm_path_spec(#[trigger] cats[ci].items[jj].path) != key;
        assert forall|cj: int, jj: int| 0 <= cj < ci && at(cats, cj, jj) implies norm_path_spec(
            #[trigger] cats[cj].items[jj].path,
        ) != key by {
            assert(q[cj] == cats[cj]);
            assert(at(q, cj, jj));
        }
        assert(is_holder(cats, key, ci, ii));
    }
}

/// Replacing one category's items by items whose desktop paths are those of
/// the old ones plus `key` adds `key` to the desktop paths.
proof fn lemma_desktop_keys_update(cats: Seq<CategoryView>, ci: int, items: Seq<ItemView>, key: Seq<char>)
    requires
        0 <= ci < cats.len(),
        item_desktop_keys(items) == item_desktop_keys(cats[ci].items).insert(key),
    ensures
        desktop_keys(cats.update(ci, with_items(cats[ci], items))) == desktop_keys(cats).insert(key),
{
    let c2 = cats.update(ci, with_items(cats[ci], items));
    assert forall|k: Seq<char>| desktop_keys(c2).contains(k) implies desktop_keys(cats).insert(key).contains(k) by {
        let cj = choose|cj: int| 0 <= cj < c2.len() && #[trigger] item_desktop_keys(c2[cj].items).contains(k);
        if cj != ci {
            assert(item_desktop_keys(cats[cj].items).contains(k));
        } else if k != key {
            assert(item_desktop_keys(cats[ci].items).contains(k));
        }
    }
    assert forall|k: Seq<char>| desktop_keys(cats).insert(key).contains(k) implies desktop_keys(c2).contains(k) by {
        if k == key {
            assert(item_desktop_keys(c2[ci].items).contains(k));
        } else {
            let cj = choose|cj: int| 0 <= cj < cats.len() && #[trigger] item_desktop_keys(cats[cj].items).contains(k);
            if cj == ci {
                assert(item_desktop_keys(c2[ci].items).contains(k));
            } else {
                assert(item_desktop_keys(c2[cj].items).contains(k));
            }
        }
    }
    assert(desktop_keys(c2) =~= desktop_keys(cats).insert(key));
}

/// Making a manual item a desktop item adds its path to the desktop paths.
proof fn lemma_item_desktop_keys_adopt(items: Seq<ItemView>, ii: int, y: ItemView)
    requires
        0 <= ii < items.len(),
        items[ii].source != ItemSource::Desktop,
        y.source == ItemSource::Desktop,
    ensures
        item_desktop_keys(items.update(ii, y)) == item_desktop_keys(items).insert(norm_path_spec(y.path)),
{
    let u = items.update(ii, y);
    let r = item_desktop_keys(items).insert(norm_path_spec(y.path));
    assert forall|k: Seq<char>| item_desktop_keys(u).contains(k) implies r.contains(k) by {
        let jj = choose|jj: int|
            0 <= jj < u.len() && #[trigger] u[jj].source == ItemSource::Desktop && norm_path_spec(u[jj].path) == k;
        if jj != ii {
            assert(items[jj] == u[jj]);
        }
    }
    assert forall|k: Seq<char>| r.contains(k) implies item_desktop_keys(u).contains(k) by {
        if k == norm_path_spec(y.path) {
            assert(u[ii] == y);
        } else {
            let jj = choose|jj: int|
                0 <= jj < items.len() && #[trigger] items[jj].source == ItemSource::Desktop
                    && norm_path_spec(items[jj].path) == k;
            assert(jj != ii);
            assert(u[jj] == items[jj]);
        }
    }
    assert(item_desktop_keys(u) =~= r);
}

/// Appending an item adds only its own path to the paths that have an item.
proof fn lemma_has_key_push(cats: Seq<CategoryView>, d: int, x: ItemView, k: Seq<char>)
    requires
        0 <= d < cats.len(),
        has_key(cats.update(d, with_items(cats[d], cats[d].items.push(x))), k),
    ensures
        has_key(cats, k) || k == norm_path_spec(x.path),
{
    let c2 = cats.update(d, with_items(cats[d], cats[d].items.push(x)));
    let (a, b) = choose|a: int, b: int| at(c2, a, b) && norm_path_spec(#[trigger] c2[a].items[b].path) == k;
    if a == d && b == cats[d].items.len() {
    } else {
        assert(c2[a].items[b] == cats[a].items[b]);
        assert(at(cats, a, b));
    }
}

/// One entry of step 3 keeps the invariant, the entry now settled.
proof fn lemma_claim_step(
    st: ClaimState,
    c1: Seq<CategoryView>,
    p: Seq<ScannedView>,
    e: ScannedView,
    live: Set<Seq<char>>,
    desk: Option<int>,
)
    requires
        claim_inv(st, c1, p, live, desk),
        live.contains(norm_path_spec(e.path)),
    ensures
        claim_inv(claim_one(st, e, desk), c1, p.push(e), live, desk),
{
    let key = norm_path_spec(e.path);
    let n = claim_one(st, e, desk);
    let q = p.push(e);
    if st.claimed.contains(key) {
        assert forall|i: int| 0 <= i < q.len() implies #[trigger] settled(n, q[i], desk) by {
            if i < p.len() {
                assert(q[i] == p[i]);
                assert(settled(st, p[i], desk));
            }
        }
    } else if has_key(st.cats, key) {
        lemma_holder_exists(st.cats, key);
        let (ci, ii) = choose|ci: int, ii: int| is_holder(st.cats, key, ci, ii);
        let x = st.cats[ci].items[ii];
        let y = adopted_item(x, e.kind);
        let items = st.cats[ci].items.update(ii, y);
        if x.source == ItemSource::Desktop {
            assert(item_desktop_keys(st.cats[ci].items).contains(key));
            assert(desktop_keys(st.cats).contains(key));
        }
        lemma_item_desktop_keys_adopt(st.cats[ci].items, ii, y);
        lemma_desktop_keys_update(st.cats, ci, items, key);
        assert(n.cats == st.cats.update(ci, with_items(st.cats[ci], items)));
        assert forall|cj: int, jj: int|
            at(n.cats, cj, jj) && #[trigger] n.cats[cj].items[jj].source == ItemSource::Desktop implies live.contains(
            norm_path_spec(n.cats[cj].items[jj].path),
        ) by {
            if cj != ci || jj != ii {
                assert(n.cats[cj].items[jj] == st.cats[cj].items[jj]);
                assert(at(st.cats, cj, jj));
            }
        }
        assert forall|k: Seq<char>| has_key(n.cats, k) <==> has_key(st.cats, k) by {
            if has_key(n.cats, k) {
                let (a, b) = choose|a: int, b: int| at(n.cats, a, b) && norm_path_spec(#[trigger] n.cats[a].items[b].path) == k;
                assert(st.cats[a].items[b].path == n.cats[a].items[b].path);
                assert(at(st.cats, a, b));
            }
            if has_key(st.cats, k) {
                let (a, b) = choose|a: int, b: int| at(st.cats, a, b) && norm_path_spec(#[trigger] st.cats[a].items[b].path) == k;
                assert(st.cats[a].items[b].path == n.cats[a].items[b].path);
                assert(at(n.cats, a, b));
            }
        }
        assert forall|i: int| 0 <= i < q.len() implies #[trigger] settled(n, q[i], desk) by {
            if i < p.len() {
                assert(q[i] == p[i]);
                assert(settled(st, p[i], desk));
            }
        }
    } else if st.ignored.contains(key) {
        assert forall|i: int| 0 <= i < q.len() implies #[trigger] settled(n, q[i], desk) by {
            if i < p.len() {
                assert(q[i] == p[i]);
                assert(settled(st, p[i], desk));
            }
        }
    } else {
        match desk {
            Some(d) => {
                let items = st.cats[d].items.push(new_item(e));
                assert(n.cats == st.cats.update(d, with_items(st.cats[d], items)));
                lemma_item_desktop_keys_push(st.cats[d].items, new_item(e));
                lemma_desktop_keys_update(st.cats, d, items, key);
                assert forall|cj: int, jj: int|
                    at(n.cats, cj, jj) && #[trigger] n.cats[cj].items[jj].source == ItemSource::Desktop implies live.contains(
                    norm_path_spec(n.cats[cj].items[jj].path),
                ) by {
                    if cj != d || jj < st.cats[d].items.len() {
                        assert(n.cats[cj].items[jj] == st.cats[cj].items[jj]);
                        assert(at(st.cats, cj, jj));
                    }
                }
                assert forall|i: int| 0 <= i < q.len() implies #[trigger] settled(n, q[i], desk) by {
                    if i < p.len() {
                        assert(q[i] == p[i]);
                        assert(settled(st, p[i], desk));
                        let k = norm_path_spec(p[i].path);
                        if !st.claimed.contains(k) && has_key(n.cats, k) {
                            // then `k` is ignored and has no item; `key` is not ignored
                            assert(k != key);
                            lemma_has_key_push(st.cats, d, new_item(e), k);
                        }
                    }
                }
            },
            None => {
                assert forall|i: int| 0 <= i < q.len() implies #[trigger] settled(n, q[i], desk) by {
                    if i < p.len() {
                        assert(q[i] == p[i]);
                        assert(settled(st, p[i], desk));
                    }
                }
            },
        }
    }
}

proof fn lemma_claim_all_inv(st0: ClaimState, c1: Seq<CategoryView>, sc: Seq<ScannedView>, live: Set<Seq<char>>, desk: Option<int>)
    requires
        claim_inv(st0, c1, seq![], live, desk),
        forall|i: int| 0 <= i < sc.len() ==> live.contains(norm_path_spec(#[trigger] sc[i].path)),
    ensures
        claim_inv(claim_all(st0, sc, desk), c1, sc, live, desk),
    decreases sc.len(),
{
    if sc.len() > 0 {
        let q = sc.drop_last();
        assert forall|i: int| 0 <= i < q.len() implies live.contains(norm_path_spec(#[trigger] q[i].path)) by {
            assert(q[i] == sc[i]);
        }
        lemma_claim_all_inv(st0, c1, q, live, desk);
        assert(live.contains(norm_path_spec(sc[sc.len() - 1].path)));
        lemma_claim_step(claim_all(st0, q, desk), c1, q, sc.last(), live, desk);
        assert(q.push(sc.last()) =~= sc);
    }
}


// ---------------------------------------------------------------------------
// After a sync

proof fn lemma_same_shape_desktop_index(a: Seq<CategoryView>, b: Seq<CategoryView>)
    requires
        same_shape(a, b),
    ensures
        desktop_index(a) == desktop_index(b),
{
    let id = desktop_id_chars();
    if has_category(b, id) {
        lemma_has_first(b, id);
        let k = first_index(b, id);
        assert(a[k].id == id);
        assert forall|j: int| 0 <= j < k implies #[trigger] a[j].id != id by {
            assert(a[j].id == b[j].id);
        }
        assert(is_first_with_id(a, id, k));
        lemma_first_index(a, id, k);
    }
    if has_category(a, id) {
        let i = choose|i: int| 0 <= i < a.len() && #[trigger] a[i].id == id;
        assert(b[i].id == id);
    }
}

/// Sorting the items of one category keeps which items there are.
proof fn lemma_sort_category(cats: Seq<CategoryView>, d: int, live: Set<Seq<char>>)
    requires
        0 <= d < cats.len(),
    ensures
        ({
            let c2 = cats.update(d, with_items(cats[d], sort_by_key(cats[d].items, item_key())));
            &&& same_shape(c2, cats)
            &&& desktop_keys(c2) == desktop_keys(cats)
            &&& forall|k: Seq<char>| #[trigger] has_key(c2, k) == has_key(cats, k)
            &&& desktop_items_live(cats, live) ==> desktop_items_live(c2, live)
        }),
{
    let items = cats[d].items;
    let sorted = sort_by_key(items, item_key());
    let c2 = cats.update(d, with_items(cats[d], sorted));
    lemma_sort_contains(items, item_key());
    assert(item_desktop_keys(sorted) == item_desktop_keys(items)) by {
        assert forall|k: Seq<char>| item_desktop_keys(sorted).contains(k) implies item_desktop_keys(items).contains(k) by {
            let jj = choose|jj: int|
                0 <= jj < sorted.len() && #[trigger] sorted[jj].source == ItemSource::Desktop
                    && norm_path_spec(sorted[jj].path) == k;
            assert(sorted.contains(sorted[jj]));
            let w = choose|w: int| 0 <= w < items.len() && items[w] == sorted[jj];
            assert(items[w].source == ItemSource::Desktop);
        }
        assert forall|k: Seq<char>| item_desktop_keys(items).contains(k) implies item_desktop_keys(sorted).contains(k) by {
            let jj = choose|jj: int|
                0 <= jj < items.len() && #[trigger] items[jj].source == ItemSource::Desktop
                    && norm_path_spec(items[jj].path) == k;
            assert(items.contains(items[jj]));
            assert(sorted.contains(items[jj]));
            let w = choose|w: int| 0 <= w < sorted.len() && sorted[w] == items[jj];
            assert(sorted[w].source == ItemSource::Desktop);
        }
        assert(item_desktop_keys(sorted) =~= item_desktop_keys(items));
    }
    assert(desktop_keys(c2) =~= desktop_keys(cats)) by {
        assert forall|k: Seq<char>| desktop_keys(c2).contains(k) implies desktop_keys(cats).contains(k) by {
            let cj = choose|cj: int| 0 <= cj < c2.len() && #[trigger] item_desktop_keys(c2[cj].items).contains(k);
            assert(item_desktop_keys(cats[cj].items).contains(k));
        }
        assert forall|k: Seq<char>| desktop_keys(cats).contains(k) implies desktop_keys(c2).contains(k) by {
            let cj = choose|cj: int| 0 <= cj < cats.len() && #[trigger] item_desktop_keys(cats[cj].items).contains(k);
            assert(item_desktop_keys(c2[cj].items).contains(k));
        }
    }
    assert forall|k: Seq<char>| #[trigger] has_key(c2, k) == has_key(cats, k) by {
        if has_key(c2, k) {
            let (a, b) = choose|a: int, b: int| at(c2, a, b) && norm_path_spec(#[trigger] c2[a].items[b].path) == k;
            if a == d {
                assert(sorted.contains(sorted[b]));
                let w = choose|w: int| 0 <= w < items.len() && items[w] == sorted[b];
                assert(at(cats, d, w) && norm_path_spec(cats[d].items[w].path) == k);
            } else {
                assert(at(cats, a, b) && norm_path_spec(cats[a].items[b].path) == k);
            }
        }
        if has_key(cats, k) {
            let (a, b) = choose|a: int, b: int| at(cats, a, b) && norm_path_spec(#[trigger] cats[a].items[b].path) == k;
            if a == d {
                assert(items.contains(items[b]));
                assert(sorted.contains(items[b]));
                let w = choose|w: int| 0 <= w < sorted.len() && sorted[w] == items[b];
                assert(at(c2, d, w) && norm_path_spec(c2[d].items[w].path) == k);
            } else {
                assert(at(c2, a, b) && norm_path_spec(c2[a].items[b].path) == k);
            }
        }
    }
    if desktop_items_live(cats, live) {
        assert forall|ci: int, ii: int|
            at(c2, ci, ii) && #[trigger] c2[ci].items[ii].source == ItemSource::Desktop implies live.contains(
            norm_path_spec(c2[ci].items[ii].path),
        ) by {
            if ci == d {
                assert(sorted.contains(sorted[ii]));
                let w = choose|w: int| 0 <= w < items.len() && items[w] == sorted[ii];
                assert(at(cats, d, w));
                assert(cats[d].items[w] == c2[ci].items[ii]);
            } else {
                assert(at(cats, ci, ii));
            }
        }
    }
}

/// After a sync, the categories are in step with the snapshot it was given:
/// every desktop item is on the desktop, every path on the desktop that has
/// an item has a desktop item (and, when there is a desktop category, every
/// path on the desktop that is not on the ignore list has an item), and the
/// desktop category is sorted.
pub proof fn lemma_sync_in_sync(cfg: ConfigView, sc: Seq<ScannedView>)
    ensures
        in_sync(sync_spec(cfg, sc).config.categories, ignored_keys(cfg.ignored), sc),
{
    broadcast use vstd::seq_lib::group_filter_ensures;

    let live = live_keys(sc);
    let c1 = after_removal(cfg.categories, live);
    let desk = desktop_index(c1);
    lemma_desktop_index_valid(c1);
    assert forall|ci: int, ii: int|
        at(c1, ci, ii) && #[trigger] c1[ci].items[ii].source == ItemSource::Desktop implies live.contains(
        norm_path_spec(c1[ci].items[ii].path),
    ) by {
        assert(survives(live)(cfg.categories[ci].items.filter(survives(live))[ii]));
    }
    let st0 = ClaimState { cats: c1, claimed: desktop_keys(c1), ignored: ignored_keys(cfg.ignored), added: 0, adopted: 0 };
    assert(claim_inv(st0, c1, seq![], live, desk));
    assert forall|i: int| 0 <= i < sc.len() implies live.contains(norm_path_spec(#[trigger] sc[i].path)) by {}
    lemma_claim_all_inv(st0, c1, sc, live, desk);
    lemma_claim_keeps_ignored(st0, sc, desk);
    let st = claim_all(st0, sc, desk);
    let fin = sorted_desktop(st.cats, desk);
    assert(fin == sync_spec(cfg, sc).config.categories);
    match desk {
        Some(d) => {
            lemma_sort_category(st.cats, d, live);
            lemma_sort_sorted(st.cats[d].items, item_key());
        },
        None => {},
    }
    assert(same_shape(fin, c1));
    lemma_same_shape_desktop_index(fin, c1);
    assert forall|k: Seq<char>| #[trigger] live.contains(k) && has_key(fin, k) implies desktop_keys(fin).contains(k) by {
        let i = choose|i: int| 0 <= i < sc.len() && norm_path_spec(#[trigger] sc[i].path) == k;
        assert(settled(st, sc[i], desk));
    }
    if desk is Some {
        assert forall|k: Seq<char>| #[trigger] live.contains(k) && !ignored_keys(cfg.ignored).contains(k) implies has_key(fin, k) by {
            let i = choose|i: int| 0 <= i < sc.len() && norm_path_spec(#[trigger] sc[i].path) == k;
            assert(settled(st, sc[i], desk));
            assert(st.claimed.contains(k));
            let cj = choose|cj: int| 0 <= cj < st.cats.len() && #[trigger] item_desktop_keys(st.cats[cj].items).contains(k);
            let jj = choose|jj: int|
                0 <= jj < st.cats[cj].items.len() && #[trigger] st.cats[cj].items[jj].source == ItemSource::Desktop
                    && norm_path_spec(st.cats[cj].items[jj].path) == k;
            assert(at(st.cats, cj, jj));
            assert(has_key(st.cats, k));
        }
    }
}

/// A second sync with the same snapshot changes nothing and reports
/// nothing: syncing is idempotent.
pub proof fn lemma_sync_idempotent(cfg: ConfigView, sc: Seq<ScannedView>)
    ensures
        ({
            let once = sync_spec(cfg, sc).config;
            &&& sync_spec(once, sc).config == once
            &&& sync_spec(once, sc).added == 0
            &&& sync_spec(once, sc).removed == 0
            &&& sync_spec(once, sc).adopted == 0
        }),
{
    lemma_sync_in_sync(cfg, sc);
    lemma_sync_in_sync_noop(sync_spec(cfg, sc).config, sc);
}


// ---------------------------------------------------------------------------
// Where each item comes from

/// Same id, name and path.
pub open spec fn same_item(a: ItemView, b: ItemView) -> bool {
    a.id == b.id && a.name == b.name && a.path == b.path
}

/// `x` is the item made for one of the entries of `p`.
pub open spec fn made_from(x: ItemView, p: Seq<ScannedView>) -> bool {
    exists|i: int| 0 <= i < p.len() && x == new_item(#[trigger] p[i])
}

/// Item `jj` of category `ci` of `c1` is still there in `cats`, with the same id, name and path.
pub open spec fn kept_at(cats: Seq<CategoryView>, c1: Seq<CategoryView>, ci: int, jj: int) -> bool {
    at(c1, ci, jj) ==> at(cats, ci, jj) && same_item(cats[ci].items[jj], c1[ci].items[jj])
}

/// Item `jj` of category `ci` of `cats`, past the items of `c1`, was made for
/// an entry of `p`, in the desktop category.
pub open spec fn made_at(cats: Seq<CategoryView>, c1: Seq<CategoryView>, p: Seq<ScannedView>, desk: Option<int>, ci: int, jj: int) -> bool {
    at(cats, ci, jj) && jj >= c1[ci].items.len() ==> desk == Some(ci) && made_from(cats[ci].items[jj], p)
}

/// The items of `cats` are those of `c1`, in place and with the same id, name
/// and path, followed (in the desktop category only) by items made for
/// entries of `p`.
pub open spec fn corr(cats: Seq<CategoryView>, c1: Seq<CategoryView>, p: Seq<ScannedView>, desk: Option<int>) -> bool {
    &&& same_shape(cats, c1)
    &&& forall|ci: int, jj: int| #[trigger] kept_at(cats, c1, ci, jj)
    &&& forall|ci: int, jj: int| #[trigger] made_at(cats, c1, p, desk, ci, jj)
}

proof fn lemma_corr_old(cats: Seq<CategoryView>, c1: Seq<CategoryView>, p: Seq<ScannedView>, desk: Option<int>, ci: int, jj: int)
    requires
        corr(cats, c1, p, desk),
        at(c1, ci, jj),
    ensures
        at(cats, ci, jj),
        same_item(cats[ci].items[jj], c1[ci].items[jj]),
{
    assert(kept_at(cats, c1, ci, jj));
}

proof fn lemma_corr_new(cats: Seq<CategoryView>, c1: Seq<CategoryView>, p: Seq<ScannedView>, desk: Option<int>, ci: int, jj: int)
    requires
        corr(cats, c1, p, desk),
        at(cats, ci, jj),
        jj >= c1[ci].items.len(),
    ensures
        desk == Some(ci),
        made_from(cats[ci].items[jj], p),
{
    assert(made_at(cats, c1, p, desk, ci, jj));
}

proof fn lemma_corr_extend(cats: Seq<CategoryView>, c1: Seq<CategoryView>, p: Seq<ScannedView>, q: Seq<ScannedView>, desk: Option<int>)
    requires
        corr(cats, c1, p, desk),
        forall|x: ItemView| made_from(x, p) ==> made_from(x, q),
    ensures
        corr(cats, c1, q, desk),
{
    assert forall|ci: int, jj: int| #[trigger] made_at(cats, c1, q, desk, ci, jj) by {
        if at(cats, ci, jj) && jj >= c1[ci].items.len() {
            lemma_corr_new(cats, c1, p, desk, ci, jj);
        }
    }
}

/// Adopting the holder of a path keeps the correspondence.
proof fn lemma_corr_adopt(st: ClaimState, c1: Seq<CategoryView>, p: Seq<ScannedView>, e: ScannedView, desk: Option<int>)
    requires
        st.claimed == desktop_keys(st.cats),
        corr(st.cats, c1, p, desk),
        !st.claimed.contains(norm_path_spec(e.path)),
        has_key(st.cats, norm_path_spec(e.path)),
        forall|x: ItemView| made_from(x, p) ==> made_from(x, p.push(e)),
    ensures
        corr(claim_one(st, e, desk).cats, c1, p.push(e), desk),
{
    let key = norm_path_spec(e.path);
    let q = p.push(e);
    lemma_holder_exists(st.cats, key);
    let (ci, ii) = choose|ci: int, ii: int| is_holder(st.cats, key, ci, ii);
    let x = st.cats[ci].items[ii];
    let y = adopted_item(x, e.kind);
    let items = st.cats[ci].items.update(ii, y);
    let c2 = st.cats.update(ci, with_items(st.cats[ci], items));
    assert(claim_one(st, e, desk).cats == c2);
    if x.source == ItemSource::Desktop {
        assert(item_desktop_keys(st.cats[ci].items).contains(key));
        assert(desktop_keys(st.cats).contains(key));
    }
    if ii >= c1[ci].items.len() {
        lemma_corr_new(st.cats, c1, p, desk, ci, ii);
        let i = choose|i: int| 0 <= i < p.len() && x == new_item(#[trigger] p[i]);
        assert(x.source == ItemSource::Desktop);
    }
    assert(ii < c1[ci].items.len());
    assert(same_shape(c2, c1)) by {
        assert forall|cj: int| 0 <= cj < c2.len() implies (#[trigger] c2[cj]).id == c1[cj].id && c2[cj].name == c1[cj].name by {
            assert(st.cats[cj].id == c1[cj].id);
        }
    }
    assert forall|cj: int, jj: int| #[trigger] kept_at(c2, c1, cj, jj) by {
        if at(c1, cj, jj) {
            lemma_corr_old(st.cats, c1, p, desk, cj, jj);
        }
    }
    assert forall|cj: int, jj: int| #[trigger] made_at(c2, c1, q, desk, cj, jj) by {
        if at(c2, cj, jj) && jj >= c1[cj].items.len() {
            assert(at(st.cats, cj, jj));
            assert(c2[cj].items[jj] == st.cats[cj].items[jj]);
            lemma_corr_new(st.cats, c1, p, desk, cj, jj);
        }
    }
}

/// Adding a new item to the desktop category keeps the correspondence.
proof fn lemma_corr_push(st: ClaimState, c1: Seq<CategoryView>, p: Seq<ScannedView>, e: ScannedView, d: int)
    requires
        corr(st.cats, c1, p, Some(d)),
        0 <= d < st.cats.len(),
        forall|x: ItemView| made_from(x, p) ==> made_from(x, p.push(e)),
    ensures
        corr(st.cats.update(d, with_items(st.cats[d], st.cats[d].items.push(new_item(e)))), c1, p.push(e), Some(d)),
{
    let q = p.push(e);
    let c2 = st.cats.update(d, with_items(st.cats[d], st.cats[d].items.push(new_item(e))));
    let old_len = st.cats[d].items.len();
    assert(same_shape(c2, c1)) by {
        assert forall|cj: int| 0 <= cj < c2.len() implies (#[trigger] c2[cj]).id == c1[cj].id && c2[cj].name == c1[cj].name by {
            assert(st.cats[cj].id == c1[cj].id);
        }
    }
    assert forall|cj: int, jj: int| #[trigger] kept_at(c2, c1, cj, jj) by {
        if at(c1, cj, jj) {
            lemma_corr_old(st.cats, c1, p, Some(d), cj, jj);
        }
    }
    assert forall|cj: int, jj: int| #[trigger] made_at(c2, c1, q, Some(d), cj, jj) by {
        if at(c2, cj, jj) && jj >= c1[cj].items.len() {
            if cj == d && jj == old_len {
                assert(q[p.len() as int] == e);
                assert(c2[cj].items[jj] == new_item(q[p.len() as int]));
            } else {
                assert(at(st.cats, cj, jj));
                assert(c2[cj].items[jj] == st.cats[cj].items[jj]);
                lemma_corr_new(st.cats, c1, p, Some(d), cj, jj);
            }
        }
    }
}

proof fn lemma_corr_step(st: ClaimState, c1: Seq<CategoryView>, p: Seq<ScannedView>, e: ScannedView, desk: Option<int>)
    requires
        st.claimed == desktop_keys(st.cats),
        corr(st.cats, c1, p, desk),
        desk matches Some(d) ==> 0 <= d < c1.len(),
    ensures
        corr(claim_one(st, e, desk).cats, c1, p.push(e), desk),
{
    let key = norm_path_spec(e.path);
    let q = p.push(e);
    assert forall|x: ItemView| made_from(x, p) implies made_from(x, q) by {
        let i = choose|i: int| 0 <= i < p.len() && x == new_item(#[trigger] p[i]);
        assert(q[i] == p[i]);
    }
    if st.claimed.contains(key) {
        lemma_corr_extend(st.cats, c1, p, q, desk);
    } else if has_key(st.cats, key) {
        lemma_corr_adopt(st, c1, p, e, desk);
    } else if st.ignored.contains(key) {
        lemma_corr_extend(st.cats, c1, p, q, desk);
    } else {
        match desk {
            Some(d) => {
                lemma_corr_push(st, c1, p, e, d);
            },
            None => {
                lemma_corr_extend(st.cats, c1, p, q, desk);
            },
        }
    }
}

proof fn lemma_corr_all(st0: ClaimState, c1: Seq<CategoryView>, sc: Seq<ScannedView>, live: Set<Seq<char>>, desk: Option<int>)
    requires
        claim_inv(st0, c1, seq![], live, desk),
        corr(st0.cats, c1, seq![], desk),
        forall|i: int| 0 <= i < sc.len() ==> live.contains(norm_path_spec(#[trigger] sc[i].path)),
    ensures
        corr(claim_all(st0, sc, desk).cats, c1, sc, desk),
    decreases sc.len(),
{
    if sc.len() == 0 {
        assert(sc =~= seq![]);
    } else {
        let q = sc.drop_last();
        assert forall|i: int| 0 <= i < q.len() implies live.contains(norm_path_spec(#[trigger] q[i].path)) by {
            assert(q[i] == sc[i]);
        }
        lemma_corr_all(st0, c1, q, live, desk);
        lemma_claim_all_inv(st0, c1, q, live, desk);
        lemma_corr_step(claim_all(st0, q, desk), c1, q, sc.last(), desk);
        assert(q.push(sc.last()) =~= sc);
    }
}

/// The state of step 3 at its end, with what the sync started from.
proof fn lemma_sync_parts(cfg: ConfigView, sc: Seq<ScannedView>) -> (st: ClaimState)
    ensures
        ({
            let live = live_keys(sc);
            let c1 = after_removal(cfg.categories, live);
            let desk = desktop_index(c1);
            &&& st == claim_all(ClaimState { cats: c1, claimed: desktop_keys(c1), ignored: ignored_keys(cfg.ignored), added: 0, adopted: 0 }, sc, desk)
            &&& claim_inv(st, c1, sc, live, desk)
            &&& corr(st.cats, c1, sc, desk)
            &&& desk == desktop_index(cfg.categories)
            &&& sync_spec(cfg, sc).config.categories == sorted_desktop(st.cats, desk)
        }),
{
    broadcast use vstd::seq_lib::group_filter_ensures;

    let live = live_keys(sc);
    let c1 = after_removal(cfg.categories, live);
    let desk = desktop_index(c1);
    lemma_desktop_index_valid(c1);
    assert forall|ci: int, ii: int|
        at(c1, ci, ii) && #[trigger] c1[ci].items[ii].source == ItemSource::Desktop implies live.contains(
        norm_path_spec(c1[ci].items[ii].path),
    ) by {
        assert(survives(live)(cfg.categories[ci].items.filter(survives(live))[ii]));
    }
    let st0 = ClaimState { cats: c1, claimed: desktop_keys(c1), ignored: ignored_keys(cfg.ignored), added: 0, adopted: 0 };
    assert forall|i: int| 0 <= i < sc.len() implies live.contains(norm_path_spec(#[trigger] sc[i].path)) by {}
    lemma_claim_all_inv(st0, c1, sc, live, desk);
    lemma_corr_all(st0, c1, sc, live, desk);
    assert(same_shape(c1, cfg.categories));
    lemma_same_shape_desktop_index(c1, cfg.categories);
    claim_all(st0, sc, desk)
}

/// A sync keeps the categories (their number, order, ids and names) and
/// everything in the configuration but the items.
pub proof fn lemma_sync_keeps_categories(cfg: ConfigView, sc: Seq<ScannedView>)
    ensures
        same_shape(sync_spec(cfg, sc).config.categories, cfg.categories),
        sync_spec(cfg, sc).config.schema_version == cfg.schema_version,
        sync_spec(cfg, sc).config.recent == cfg.recent,
        sync_spec(cfg, sc).config.settings == cfg.settings,
        sync_spec(cfg, sc).config.ignored == cfg.ignored,
{
    let st = lemma_sync_parts(cfg, sc);
    let live = live_keys(sc);
    let desk = desktop_index(cfg.categories);
    match desk {
        Some(d) => {
            lemma_sort_category(st.cats, d, live);
        },
        None => {},
    }
}

/// An item keeps its place through a sync, with its id, name and path (a
/// sync never renames), unless it is a desktop item whose path left the
/// desktop. In particular a manual item is never dropped, and a desktop item
/// the user moved to another category stays there.
pub proof fn lemma_sync_keeps_item(cfg: ConfigView, sc: Seq<ScannedView>, ci: int, ii: int)
    requires
        at(cfg.categories, ci, ii),
        survives(live_keys(sc))(cfg.categories[ci].items[ii]),
    ensures
        exists|jj: int|
            at(sync_spec(cfg, sc).config.categories, ci, jj) && same_item(
                #[trigger] sync_spec(cfg, sc).config.categories[ci].items[jj],
                cfg.categories[ci].items[ii],
            ),
{
    broadcast use vstd::seq_lib::group_filter_ensures;

    let st = lemma_sync_parts(cfg, sc);
    let live = live_keys(sc);
    let c1 = after_removal(cfg.categories, live);
    let desk = desktop_index(cfg.categories);
    let out = sync_spec(cfg, sc).config.categories;
    let x = cfg.categories[ci].items[ii];
    assert(c1[ci].items.contains(x));
    let w = choose|w: int| 0 <= w < c1[ci].items.len() && c1[ci].items[w] == x;
    assert(at(c1, ci, w));
    lemma_corr_old(st.cats, c1, sc, desk, ci, w);
    match desk {
        Some(d) => {
            lemma_sort_category(st.cats, d, live);
            if ci == d {
                let items = st.cats[d].items;
                lemma_sort_contains(items, item_key());
                assert(items.contains(items[w]));
                assert(sort_by_key(items, item_key()).contains(items[w]));
                let jj = choose|jj: int| 0 <= jj < out[ci].items.len() && out[ci].items[jj] == items[w];
                assert(at(out, ci, jj));
            } else {
                assert(at(out, ci, w));
            }
        },
        None => {
            assert(at(out, ci, w));
        },
    }
}

/// Categories other than the desktop category are never reordered or added
/// to by a sync: their items after it are exactly those that survive step 1,
/// in the same order, with the same ids, names and paths.
pub proof fn lemma_sync_keeps_order(cfg: ConfigView, sc: Seq<ScannedView>, ci: int)
    requires
        0 <= ci < cfg.categories.len(),
        desktop_index(cfg.categories) != Some(ci),
    ensures
        ({
            let kept = cfg.categories[ci].items.filter(survives(live_keys(sc)));
            let out = sync_spec(cfg, sc).config.categories[ci].items;
            &&& out.len() == kept.len()
            &&& forall|jj: int| 0 <= jj < out.len() ==> same_item(#[trigger] out[jj], kept[jj])
        }),
{
    let st = lemma_sync_parts(cfg, sc);
    let live = live_keys(sc);
    let c1 = after_removal(cfg.categories, live);
    let desk = desktop_index(cfg.categories);
    let out = sync_spec(cfg, sc).config.categories;
    assert(out[ci] == st.cats[ci]);
    if st.cats[ci].items.len() > c1[ci].items.len() {
        lemma_corr_new(st.cats, c1, sc, desk, ci, c1[ci].items.len() as int);
    }
    if st.cats[ci].items.len() < c1[ci].items.len() {
        lemma_corr_old(st.cats, c1, sc, desk, ci, st.cats[ci].items.len() as int);
    }
    assert forall|jj: int| 0 <= jj < out[ci].items.len() implies same_item(#[trigger] out[ci].items[jj], c1[ci].items[jj]) by {
        lemma_corr_old(st.cats, c1, sc, desk, ci, jj);
    }
}

/// Every item after a sync was there before, in the same category with the
/// same id, name and path (a sync never renames), or is a new desktop item
/// made for an entry of the snapshot, in the desktop category.
pub proof fn lemma_sync_item_origin(cfg: ConfigView, sc: Seq<ScannedView>, ci: int, jj: int)
    requires
        at(sync_spec(cfg, sc).config.categories, ci, jj),
    ensures
        ({
            let x = sync_spec(cfg, sc).config.categories[ci].items[jj];
            ||| exists|ii: int| at(cfg.categories, ci, ii) && same_item(x, #[trigger] cfg.categories[ci].items[ii])
            ||| desktop_index(cfg.categories) == Some(ci) && x.source == ItemSource::Desktop && made_from(x, sc)
        }),
{
    let st = lemma_sync_parts(cfg, sc);
    let live = live_keys(sc);
    let c1 = after_removal(cfg.categories, live);
    let desk = desktop_index(cfg.categories);
    let out = sync_spec(cfg, sc).config.categories;
    let x = out[ci].items[jj];
    // the position of `x` in the categories before sorting
    let w: int = match desk {
        Some(d) => if ci == d {
            let items = st.cats[d].items;
            lemma_sort_contains(items, item_key());
            assert(sort_by_key(items, item_key()).contains(x));
            choose|w: int| 0 <= w < items.len() && items[w] == x
        } else {
            jj
        },
        None => jj,
    };
    assert(at(st.cats, ci, w) && st.cats[ci].items[w] == x);
    if w < c1[ci].items.len() {
        let y = c1[ci].items[w];
        lemma_corr_old(st.cats, c1, sc, desk, ci, w);
        assert(cfg.categories[ci].items.filter(survives(live)).contains(y));
        cfg.categories[ci].items.lemma_filter_contains_rev(survives(live), y);
        let ii = choose|ii: int| 0 <= ii < cfg.categories[ci].items.len() && cfg.categories[ci].items[ii] == y;
        assert(at(cfg.categories, ci, ii));
    } else {
        lemma_corr_new(st.cats, c1, sc, desk, ci, w);
        let i = choose|i: int| 0 <= i < sc.len() && x == new_item(#[trigger] sc[i]);
    }
}


// ---------------------------------------------------------------------------
// One item per path across the whole configuration

/// Items `i` and `j` of `items`, if different, have different normalized paths.
pub open spec fn differ_at(items: Seq<ItemView>, i: int, j: int) -> bool {
    0 <= i < items.len() && 0 <= j < items.len() && i != j ==> norm_path_spec(items[i].path)
        != norm_path_spec(items[j].path)
}

/// No two items of `items` share a normalized path.
pub open spec fn distinct_paths(items: Seq<ItemView>) -> bool {
    forall|i: int, j: int| #[trigger] differ_at(items, i, j)
}

/// Items of two different categories have different normalized paths.
pub open spec fn apart_at(cats: Seq<CategoryView>, ci: int, ii: int, cj: int, jj: int) -> bool {
    at(cats, ci, ii) && at(cats, cj, jj) && ci != cj ==> norm_path_spec(cats[ci].items[ii].path)
        != norm_path_spec(cats[cj].items[jj].path)
}

/// No two items anywhere in the configuration share a normalized path.
pub open spec fn unique_paths(cats: Seq<CategoryView>) -> bool {
    &&& forall|ci: int| 0 <= ci < cats.len() ==> distinct_paths(#[trigger] cats[ci].items)
    &&& forall|ci: int, ii: int, cj: int, jj: int| #[trigger] apart_at(cats, ci, ii, cj, jj)
}

proof fn lemma_filter_distinct(s: Seq<ItemView>, p: spec_fn(ItemView) -> bool)
    requires
        distinct_paths(s),
    ensures
        distinct_paths(s.filter(p)),
    decreases s.len(),
{
    reveal(Seq::filter);
    if s.len() > 0 {
        let q = s.drop_last();
        assert forall|i: int, j: int| #[trigger] differ_at(q, i, j) by {
            assert(differ_at(s, i, j));
        }
        lemma_filter_distinct(q, p);
        let f = q.filter(p);
        if p(s.last()) {
            let r = f.push(s.last());
            assert(s.filter(p) == r);
            assert forall|i: int, j: int| #[trigger] differ_at(r, i, j) by {
                if 0 <= i < r.len() && 0 <= j < r.len() && i != j {
                    if i < f.len() && j < f.len() {
                        assert(differ_at(f, i, j));
                    } else {
                        let k = if i < f.len() { i } else { j };
                        assert(f.contains(f[k]));
                        q.lemma_filter_contains_rev(p, f[k]);
                        let w = choose|w: int| 0 <= w < q.len() && q[w] == f[k];
                        assert(differ_at(s, w, s.len() - 1));
                    }
                }
            }
        }
    }
}

proof fn lemma_removal_unique(cats: Seq<CategoryView>, live: Set<Seq<char>>)
    requires
        unique_paths(cats),
    ensures
        unique_paths(after_removal(cats, live)),
{
    let c1 = after_removal(cats, live);
    assert forall|ci: int| 0 <= ci < c1.len() implies distinct_paths(#[trigger] c1[ci].items) by {
        assert(distinct_paths(cats[ci].items));
        lemma_filter_distinct(cats[ci].items, survives(live));
    }
    assert forall|ci: int, ii: int, cj: int, jj: int| #[trigger] apart_at(c1, ci, ii, cj, jj) by {
        if at(c1, ci, ii) && at(c1, cj, jj) && ci != cj {
            let x = c1[ci].items[ii];
            let y = c1[cj].items[jj];
            assert(c1[ci].items.contains(x));
            assert(c1[cj].items.contains(y));
            cats[ci].items.lemma_filter_contains_rev(survives(live), x);
            cats[cj].items.lemma_filter_contains_rev(survives(live), y);
            let a = choose|a: int| 0 <= a < cats[ci].items.len() && cats[ci].items[a] == x;
            let b = choose|b: int| 0 <= b < cats[cj].items.len() && cats[cj].items[b] == y;
            assert(apart_at(cats, ci, a, cj, b));
        }
    }
}

/// Categories whose items have the same paths position by position.
pub open spec fn same_paths(a: Seq<CategoryView>, b: Seq<CategoryView>) -> bool {
    &&& a.len() == b.len()
    &&& forall|ci: int| 0 <= ci < a.len() ==> (#[trigger] a[ci]).items.len() == b[ci].items.len()
    &&& forall|ci: int, ii: int| at(a, ci, ii) ==> (#[trigger] a[ci].items[ii]).path == b[ci].items[ii].path
}

proof fn lemma_same_paths_unique(a: Seq<CategoryView>, b: Seq<CategoryView>)
    requires
        same_paths(a, b),
        unique_paths(b),
    ensures
        unique_paths(a),
{
    assert forall|ci: int| 0 <= ci < a.len() implies distinct_paths(#[trigger] a[ci].items) by {
        assert(distinct_paths(b[ci].items));
        assert forall|i: int, j: int| #[trigger] differ_at(a[ci].items, i, j) by {
            assert(differ_at(b[ci].items, i, j));
            if 0 <= i < a[ci].items.len() && 0 <= j < a[ci].items.len() {
                assert(at(a, ci, i) && at(a, ci, j));
                assert(a[ci].items[i].path == b[ci].items[i].path);
                assert(a[ci].items[j].path == b[ci].items[j].path);
            }
        }
    }
    assert forall|ci: int, ii: int, cj: int, jj: int| #[trigger] apart_at(a, ci, ii, cj, jj) by {
        assert(apart_at(b, ci, ii, cj, jj));
        if at(a, ci, ii) && at(a, cj, jj) {
            assert(a[ci].items[ii].path == b[ci].items[ii].path);
            assert(a[cj].items[jj].path == b[cj].items[jj].path);
        }
    }
}

/// One entry of step 3 keeps the paths unique.
proof fn lemma_claim_step_unique(st: ClaimState, e: ScannedView, desk: Option<int>)
    requires
        unique_paths(st.cats),
        desk matches Some(d) ==> 0 <= d < st.cats.len(),
    ensures
        unique_paths(claim_one(st, e, desk).cats),
        claim_one(st, e, desk).cats.len() == st.cats.len(),
{
    let key = norm_path_spec(e.path);
    let n = claim_one(st, e, desk);
    if st.claimed.contains(key) {
    } else if has_key(st.cats, key) {
        lemma_holder_exists(st.cats, key);
        let (ci, ii) = choose|ci: int, ii: int| is_holder(st.cats, key, ci, ii);
        assert(same_paths(n.cats, st.cats)) by {
            assert forall|cj: int, jj: int| at(n.cats, cj, jj) implies (#[trigger] n.cats[cj].items[jj]).path
                == st.cats[cj].items[jj].path by {
                if cj == ci && jj == ii {
                } else {
                    assert(n.cats[cj].items[jj] == st.cats[cj].items[jj]);
                }
            }
        }
        lemma_same_paths_unique(n.cats, st.cats);
    } else if st.ignored.contains(key) {
    } else {
        match desk {
            Some(d) => {
                let items = st.cats[d].items;
                let m = items.len();
                let r = items.push(new_item(e));
                assert(n.cats == st.cats.update(d, with_items(st.cats[d], r)));
                assert forall|cj: int| 0 <= cj < n.cats.len() implies distinct_paths(#[trigger] n.cats[cj].items) by {
                    assert(distinct_paths(st.cats[cj].items));
                    if cj == d {
                        assert forall|i: int, j: int| #[trigger] differ_at(r, i, j) by {
                            assert(differ_at(items, i, j));
                            if 0 <= i < r.len() && 0 <= j < r.len() && i != j && (i == m || j == m) {
                                let k = if i == m { j } else { i };
                                assert(at(st.cats, d, k));
                                assert(r[k] == items[k]);
                                assert(norm_path_spec(st.cats[d].items[k].path) != key);
                            }
                        }
                    }
                }
                assert forall|ci: int, ii: int, cj: int, jj: int| #[trigger] apart_at(n.cats, ci, ii, cj, jj) by {
                    assert(apart_at(st.cats, ci, ii, cj, jj));
                    if at(n.cats, ci, ii) && at(n.cats, cj, jj) && ci != cj {
                        if ci == d && ii == m {
                            assert(at(st.cats, cj, jj));
                            assert(norm_path_spec(st.cats[cj].items[jj].path) != key);
                        } else if cj == d && jj == m {
                            assert(at(st.cats, ci, ii));
                            assert(norm_path_spec(st.cats[ci].items[ii].path) != key);
                        } else {
                            assert(at(st.cats, ci, ii) && at(st.cats, cj, jj));
                        }
                    }
                }
            },
            None => {},
        }
    }
}

proof fn lemma_claim_all_unique(st0: ClaimState, sc: Seq<ScannedView>, desk: Option<int>)
    requires
        unique_paths(st0.cats),
        desk matches Some(d) ==> 0 <= d < st0.cats.len(),
    ensures
        unique_paths(claim_all(st0, sc, desk).cats),
        claim_all(st0, sc, desk).cats.len() == st0.cats.len(),
    decreases sc.len(),
{
    if sc.len() > 0 {
        lemma_claim_all_unique(st0, sc.drop_last(), desk);
        lemma_claim_step_unique(claim_all(st0, sc.drop_last(), desk), sc.last(), desk);
    }
}

proof fn lemma_sort_distinct(s: Seq<ItemView>)
    requires
        distinct_paths(s),
    ensures
        distinct_paths(sort_by_key(s, item_key())),
    decreases s.len(),
{
    if s.len() > 0 {
        let q = s.drop_last();
        let x = s.last();
        assert forall|i: int, j: int| #[trigger] differ_at(q, i, j) by {
            assert(differ_at(s, i, j));
        }
        lemma_sort_distinct(q);
        let sq = sort_by_key(q, item_key());
        lemma_sort_contains(q, item_key());
        lemma_first_above(sq, x, item_key());
        let pos = first_above(sq, x, item_key());
        let r = sq.insert(pos, x);
        assert(sort_by_key(s, item_key()) == r);
        assert forall|k: int| 0 <= k < sq.len() implies norm_path_spec(#[trigger] sq[k].path) != norm_path_spec(x.path) by {
            assert(sq.contains(sq[k]));
            let w = choose|w: int| 0 <= w < q.len() && q[w] == sq[k];
            assert(differ_at(s, w, s.len() - 1));
        }
        assert forall|i: int, j: int| #[trigger] differ_at(r, i, j) by {
            if 0 <= i < r.len() && 0 <= j < r.len() && i != j {
                let a = if i < pos { i } else if i == pos { -1 } else { i - 1 };
                let b = if j < pos { j } else if j == pos { -1 } else { j - 1 };
                if a >= 0 && b >= 0 {
                    assert(r[i] == sq[a] && r[j] == sq[b]);
                    assert(differ_at(sq, a, b));
                } else if a >= 0 {
                    assert(r[i] == sq[a] && r[j] == x);
                } else {
                    assert(r[j] == sq[b] && r[i] == x);
                }
            }
        }
    }
}

/// Sorting the desktop category keeps the paths unique.
proof fn lemma_sort_category_unique(cats: Seq<CategoryView>, d: int)
    requires
        0 <= d < cats.len(),
        unique_paths(cats),
    ensures
        unique_paths(cats.update(d, with_items(cats[d], sort_by_key(cats[d].items, item_key())))),
{
    let items = cats[d].items;
    let sorted = sort_by_key(items, item_key());
    let c2 = cats.update(d, with_items(cats[d], sorted));
    lemma_sort_contains(items, item_key());
    assert forall|ci: int| 0 <= ci < c2.len() implies distinct_paths(#[trigger] c2[ci].items) by {
        assert(distinct_paths(cats[ci].items));
        if ci == d {
            lemma_sort_distinct(items);
        }
    }
    assert forall|ci: int, ii: int, cj: int, jj: int| #[trigger] apart_at(c2, ci, ii, cj, jj) by {
        if at(c2, ci, ii) && at(c2, cj, jj) && ci != cj {
            let a = if ci == d {
                assert(sorted.contains(sorted[ii]));
                choose|w: int| 0 <= w < items.len() && items[w] == sorted[ii]
            } else {
                ii
            };
            let b = if cj == d {
                assert(sorted.contains(sorted[jj]));
                choose|w: int| 0 <= w < items.len() && items[w] == sorted[jj]
            } else {
                jj
            };
            assert(cats[ci].items[a] == c2[ci].items[ii]);
            assert(cats[cj].items[b] == c2[cj].items[jj]);
            assert(apart_at(cats, ci, a, cj, b));
        }
    }
}

/// Paths that are unique across the configuration stay unique through a
/// sync: a path is adopted or added only where no item has it yet.
pub proof fn lemma_sync_keeps_paths_unique(cfg: ConfigView, sc: Seq<ScannedView>)
    requires
        unique_paths(cfg.categories),
    ensures
        unique_paths(sync_spec(cfg, sc).config.categories),
{
    let st = lemma_sync_parts(cfg, sc);
    let live = live_keys(sc);
    let c1 = after_removal(cfg.categories, live);
    let desk = desktop_index(c1);
    lemma_desktop_index_valid(c1);
    lemma_removal_unique(cfg.categories, live);
    let st0 = ClaimState { cats: c1, claimed: desktop_keys(c1), ignored: ignored_keys(cfg.ignored), added: 0, adopted: 0 };
    lemma_claim_all_unique(st0, sc, desk);
    match desk {
        Some(d) => {
            lemma_sort_category_unique(st.cats, d);
        },
        None => {},
    }
}


/// With a desktop category, and paths unique across the configuration before
/// it, a sync leaves exactly one item for every path on the desktop that is
/// not on the ignore list, and that item is a desktop item.
pub proof fn lemma_sync_one_item_per_desktop_path(cfg: ConfigView, sc: Seq<ScannedView>, k: Seq<char>)
    requires
        unique_paths(cfg.categories),
        desktop_index(cfg.categories) is Some,
        live_keys(sc).contains(k),
        !ignored_keys(cfg.ignored).contains(k),
    ensures
        ({
            let out = sync_spec(cfg, sc).config.categories;
            &&& exists|ci: int, ii: int|
                at(out, ci, ii) && norm_path_spec(#[trigger] out[ci].items[ii].path) == k
                    && out[ci].items[ii].source == ItemSource::Desktop
            &&& forall|ci: int, ii: int, cj: int, jj: int|
                at(out, ci, ii) && at(out, cj, jj) && norm_path_spec(#[trigger] out[ci].items[ii].path) == k
                    && norm_path_spec(#[trigger] out[cj].items[jj].path) == k ==> ci == cj && ii == jj
        }),
{
    let out = sync_spec(cfg, sc).config.categories;
    lemma_sync_keeps_categories(cfg, sc);
    lemma_same_shape_desktop_index(out, cfg.categories);
    lemma_sync_in_sync(cfg, sc);
    lemma_sync_keeps_paths_unique(cfg, sc);
    assert(has_key(out, k));
    assert(desktop_keys(out).contains(k));
    let ci = choose|ci: int| 0 <= ci < out.len() && #[trigger] item_desktop_keys(out[ci].items).contains(k);
    let ii = choose|ii: int|
        0 <= ii < out[ci].items.len() && #[trigger] out[ci].items[ii].source == ItemSource::Desktop
            && norm_path_spec(out[ci].items[ii].path) == k;
    assert(at(out, ci, ii));
    assert forall|ci: int, ii: int, cj: int, jj: int|
        at(out, ci, ii) && at(out, cj, jj) && norm_path_spec(#[trigger] out[ci].items[ii].path) == k
            && norm_path_spec(#[trigger] out[cj].items[jj].path) == k implies ci == cj && ii == jj by {
        assert(apart_at(out, ci, ii, cj, jj));
        if ci == cj {
            assert(distinct_paths(out[ci].items));
            assert(differ_at(out[ci].items, ii, jj));
        }
    }
}


// ---------------------------------------------------------------------------
// One desktop item per path

/// Desktop items `i` and `j` of `items`, at different places, have different
/// normalized paths.
pub open spec fn desk_differ_at(items: Seq<ItemView>, i: int, j: int) -> bool {
    0 <= i < items.len() && 0 <= j < items.len() && i != j && items[i].source == ItemSource::Desktop
        && items[j].source == ItemSource::Desktop ==> norm_path_spec(items[i].path) != norm_path_spec(
        items[j].path,
    )
}

/// No two desktop items of `items` share a normalized path.
pub open spec fn desk_distinct(items: Seq<ItemView>) -> bool {
    forall|i: int, j: int| #[trigger] desk_differ_at(items, i, j)
}

/// Desktop items of two different categories have different normalized paths.
pub open spec fn desk_apart_at(cats: Seq<CategoryView>, ci: int, ii: int, cj: int, jj: int) -> bool {
    at(cats, ci, ii) && at(cats, cj, jj) && ci != cj && cats[ci].items[ii].source == ItemSource::Desktop
        && cats[cj].items[jj].source == ItemSource::Desktop ==> norm_path_spec(cats[ci].items[ii].path)
        != norm_path_spec(cats[cj].items[jj].path)
}

/// No two desktop items anywhere in the configuration share a normalized path
/// (other items may share a path with a desktop item).
pub open spec fn unique_desktop_paths(cats: Seq<CategoryView>) -> bool {
    &&& forall|ci: int| 0 <= ci < cats.len() ==> desk_distinct(#[trigger] cats[ci].items)
    &&& forall|ci: int, ii: int, cj: int, jj: int| #[trigger] desk_apart_at(cats, ci, ii, cj, jj)
}

proof fn lemma_filter_desk_distinct(s: Seq<ItemView>, p: spec_fn(ItemView) -> bool)
    requires
        desk_distinct(s),
    ensures
        desk_distinct(s.filter(p)),
    decreases s.len(),
{
    reveal(Seq::filter);
    if s.len() > 0 {
        let q = s.drop_last();
        assert forall|i: int, j: int| #[trigger] desk_differ_at(q, i, j) by {
            assert(desk_differ_at(s, i, j));
        }
        lemma_filter_desk_distinct(q, p);
        let f = q.filter(p);
        if p(s.last()) {
            let r = f.push(s.last());
            assert(s.filter(p) == r);
            assert forall|i: int, j: int| #[trigger] desk_differ_at(r, i, j) by {
                if 0 <= i < r.len() && 0 <= j < r.len() && i != j {
                    if i < f.len() && j < f.len() {
                        assert(desk_differ_at(f, i, j));
                    } else {
                        let k = if i < f.len() { i } else { j };
                        assert(f.contains(f[k]));
                        q.lemma_filter_contains_rev(p, f[k]);
                        let w = choose|w: int| 0 <= w < q.len() && q[w] == f[k];
                        assert(desk_differ_at(s, w, s.len() - 1));
                    }
                }
            }
        } else {
            assert(s.filter(p) == f);
        }
    }
}

proof fn lemma_removal_desk_unique(cats: Seq<CategoryView>, live: Set<Seq<char>>)
    requires
        unique_desktop_paths(cats),
    ensures
        unique_desktop_paths(after_removal(cats, live)),
{
    let c1 = after_removal(cats, live);
    assert forall|ci: int| 0 <= ci < c1.len() implies desk_distinct(#[trigger] c1[ci].items) by {
        assert(desk_distinct(cats[ci].items));
        lemma_filter_desk_distinct(cats[ci].items, survives(live));
    }
    assert forall|ci: int, ii: int, cj: int, jj: int| #[trigger] desk_apart_at(c1, ci, ii, cj, jj) by {
        if at(c1, ci, ii) && at(c1, cj, jj) && ci != cj {
            let x = c1[ci].items[ii];
            let y = c1[cj].items[jj];
            assert(c1[ci].items.contains(x));
            assert(c1[cj].items.contains(y));
            cats[ci].items.lemma_filter_contains_rev(survives(live), x);
            cats[cj].items.lemma_filter_contains_rev(survives(live), y);
            let a = choose|a: int| 0 <= a < cats[ci].items.len() && cats[ci].items[a] == x;
            let b = choose|b: int| 0 <= b < cats[cj].items.len() && cats[cj].items[b] == y;
            assert(desk_apart_at(cats, ci, a, cj, b));
        }
    }
}

/// A desktop item's path is among the desktop paths.
proof fn lemma_desktop_key_of(cats: Seq<CategoryView>, ci: int, ii: int)
    requires
        at(cats, ci, ii),
        cats[ci].items[ii].source == ItemSource::Desktop,
    ensures
        desktop_keys(cats).contains(norm_path_spec(cats[ci].items[ii].path)),
{
    assert(item_desktop_keys(cats[ci].items).contains(norm_path_spec(cats[ci].items[ii].path)));
}

/// One entry of step 3 keeps the desktop paths unique, and the claimed paths
/// those of the desktop items.
proof fn lemma_claim_step_desk_unique(st: ClaimState, e: ScannedView, desk: Option<int>)
    requires
        unique_desktop_paths(st.cats),
        st.claimed == desktop_keys(st.cats),
        desk matches Some(d) ==> 0 <= d < st.cats.len(),
    ensures
        unique_desktop_paths(claim_one(st, e, desk).cats),
        claim_one(st, e, desk).claimed == desktop_keys(claim_one(st, e, desk).cats),
        claim_one(st, e, desk).cats.len() == st.cats.len(),
{
    let key = norm_path_spec(e.path);
    let n = claim_one(st, e, desk);
    if st.claimed.contains(key) {
    } else if has_key(st.cats, key) {
        lemma_holder_exists(st.cats, key);
        let (ci, ii) = choose|ci: int, ii: int| is_holder(st.cats, key, ci, ii);
        let old_items = st.cats[ci].items;
        let y = adopted_item(old_items[ii], e.kind);
        let items = old_items.update(ii, y);
        assert(n.cats == st.cats.update(ci, with_items(st.cats[ci], items)));
        if old_items[ii].source == ItemSource::Desktop {
            lemma_desktop_key_of(st.cats, ci, ii);
        }
        lemma_item_desktop_keys_adopt(old_items, ii, y);
        lemma_desktop_keys_update(st.cats, ci, items, key);
        // Any other desktop item with this path would have put it among the claimed paths.
        assert forall|cj: int, jj: int|
            at(n.cats, cj, jj) && !(cj == ci && jj == ii) && n.cats[cj].items[jj].source == ItemSource::Desktop
                implies norm_path_spec(#[trigger] n.cats[cj].items[jj].path) != key by {
            assert(n.cats[cj].items[jj] == st.cats[cj].items[jj]);
            lemma_desktop_key_of(st.cats, cj, jj);
        }
        assert forall|cj: int| 0 <= cj < n.cats.len() implies desk_distinct(#[trigger] n.cats[cj].items) by {
            assert(desk_distinct(st.cats[cj].items));
            assert forall|i: int, j: int| #[trigger] desk_differ_at(n.cats[cj].items, i, j) by {
                assert(desk_differ_at(st.cats[cj].items, i, j));
                if 0 <= i < n.cats[cj].items.len() && 0 <= j < n.cats[cj].items.len() && i != j {
                    assert(at(n.cats, cj, i) && at(n.cats, cj, j));
                    if !(cj == ci && (i == ii || j == ii)) {
                        assert(n.cats[cj].items[i] == st.cats[cj].items[i]);
                        assert(n.cats[cj].items[j] == st.cats[cj].items[j]);
                    }
                }
            }
        }
        assert forall|a: int, b: int, c: int, d: int| #[trigger] desk_apart_at(n.cats, a, b, c, d) by {
            assert(desk_apart_at(st.cats, a, b, c, d));
            if at(n.cats, a, b) && at(n.cats, c, d) && a != c {
                if !(a == ci && b == ii) && !(c == ci && d == ii) {
                    assert(n.cats[a].items[b] == st.cats[a].items[b]);
                    assert(n.cats[c].items[d] == st.cats[c].items[d]);
                }
            }
        }
    } else if st.ignored.contains(key) {
    } else {
        match desk {
            Some(d) => {
                let items = st.cats[d].items;
                let m = items.len();
                let x = new_item(e);
                let r = items.push(x);
                assert(n.cats == st.cats.update(d, with_items(st.cats[d], r)));
                lemma_item_desktop_keys_push(items, x);
                lemma_desktop_keys_update(st.cats, d, r, key);
                assert forall|cj: int| 0 <= cj < n.cats.len() implies desk_distinct(#[trigger] n.cats[cj].items) by {
                    assert(desk_distinct(st.cats[cj].items));
                    if cj == d {
                        assert forall|i: int, j: int| #[trigger] desk_differ_at(r, i, j) by {
                            assert(desk_differ_at(items, i, j));
                            if 0 <= i < r.len() && 0 <= j < r.len() && i != j && (i == m || j == m) {
                                let k = if i == m { j } else { i };
                                assert(at(st.cats, d, k));
                                assert(r[k] == items[k]);
                                assert(norm_path_spec(st.cats[d].items[k].path) != key);
                            }
                        }
                    }
                }
                assert forall|ci: int, ii: int, cj: int, jj: int| #[trigger] desk_apart_at(n.cats, ci, ii, cj, jj) by {
                    assert(desk_apart_at(st.cats, ci, ii, cj, jj));
                    if at(n.cats, ci, ii) && at(n.cats, cj, jj) && ci != cj {
                        if ci == d && ii == m {
                            assert(at(st.cats, cj, jj));
                            assert(norm_path_spec(st.cats[cj].items[jj].path) != key);
                        } else if cj == d && jj == m {
                            assert(at(st.cats, ci, ii));
                            assert(norm_path_spec(st.cats[ci].items[ii].path) != key);
                        } else {
                            assert(at(st.cats, ci, ii) && at(st.cats, cj, jj));
                        }
                    }
                }
            },
            None => {},
        }
    }
}

proof fn lemma_claim_all_desk_unique(st0: ClaimState, sc: Seq<ScannedView>, desk: Option<int>)
    requires
        unique_desktop_paths(st0.cats),
        st0.claimed == desktop_keys(st0.cats),
        desk matches Some(d) ==> 0 <= d < st0.cats.len(),
    ensures
        unique_desktop_paths(claim_all(st0, sc, desk).cats),
        claim_all(st0, sc, desk).claimed == desktop_keys(claim_all(st0, sc, desk).cats),
        claim_all(st0, sc, desk).cats.len() == st0.cats.len(),
    decreases sc.len(),
{
    if sc.len() > 0 {
        lemma_claim_all_desk_unique(st0, sc.drop_last(), desk);
        lemma_claim_step_desk_unique(claim_all(st0, sc.drop_last(), desk), sc.last(), desk);
    }
}

proof fn lemma_sort_desk_distinct(s: Seq<ItemView>)
    requires
        desk_distinct(s),
    ensures
        desk_distinct(sort_by_key(s, item_key())),
    decreases s.len(),
{
    if s.len() > 0 {
        let q = s.drop_last();
        let x = s.last();
        assert forall|i: int, j: int| #[trigger] desk_differ_at(q, i, j) by {
            assert(desk_differ_at(s, i, j));
        }
        lemma_sort_desk_distinct(q);
        let sq = sort_by_key(q, item_key());
        lemma_sort_contains(q, item_key());
        lemma_first_above(sq, x, item_key());
        let pos = first_above(sq, x, item_key());
        let r = sq.insert(pos, x);
        assert(sort_by_key(s, item_key()) == r);
        assert forall|k: int| 0 <= k < sq.len() && sq[k].source == ItemSource::Desktop && x.source
            == ItemSource::Desktop implies norm_path_spec(#[trigger] sq[k].path) != norm_path_spec(x.path) by {
            assert(sq.contains(sq[k]));
            let w = choose|w: int| 0 <= w < q.len() && q[w] == sq[k];
            assert(desk_differ_at(s, w, s.len() - 1));
        }
        assert forall|i: int, j: int| #[trigger] desk_differ_at(r, i, j) by {
            if 0 <= i < r.len() && 0 <= j < r.len() && i != j {
                let a = if i < pos { i } else if i == pos { -1 } else { i - 1 };
                let b = if j < pos { j } else if j == pos { -1 } else { j - 1 };
                if a >= 0 && b >= 0 {
                    assert(r[i] == sq[a] && r[j] == sq[b]);
                    assert(desk_differ_at(sq, a, b));
                } else if a >= 0 {
                    assert(r[i] == sq[a] && r[j] == x);
                } else {
                    assert(r[j] == sq[b] && r[i] == x);
                }
            }
        }
    }
}

/// Sorting the desktop category keeps the desktop paths unique.
proof fn lemma_sort_category_desk_unique(cats: Seq<CategoryView>, d: int)
    requires
        0 <= d < cats.len(),
        unique_desktop_paths(cats),
    ensures
        unique_desktop_paths(cats.update(d, with_items(cats[d], sort_by_key(cats[d].items, item_key())))),
{
    let items = cats[d].items;
    let sorted = sort_by_key(items, item_key());
    let c2 = cats.update(d, with_items(cats[d], sorted));
    lemma_sort_contains(items, item_key());
    assert forall|ci: int| 0 <= ci < c2.len() implies desk_distinct(#[trigger] c2[ci].items) by {
        assert(desk_distinct(cats[ci].items));
        if ci == d {
            lemma_sort_desk_distinct(items);
        }
    }
    assert forall|ci: int, ii: int, cj: int, jj: int| #[trigger] desk_apart_at(c2, ci, ii, cj, jj) by {
        if at(c2, ci, ii) && at(c2, cj, jj) && ci != cj {
            let a = if ci == d {
                assert(sorted.contains(sorted[ii]));
                choose|w: int| 0 <= w < items.len() && items[w] == sorted[ii]
            } else {
                ii
            };
            let b = if cj == d {
                assert(sorted.contains(sorted[jj]));
                choose|w: int| 0 <= w < items.len() && items[w] == sorted[jj]
            } else {
                jj
            };
            assert(cats[ci].items[a] == c2[ci].items[ii]);
            assert(cats[cj].items[b] == c2[cj].items[jj]);
            assert(desk_apart_at(cats, ci, a, cj, b));
        }
    }
}

/// The sync engine's third invariant: when no two desktop items share a path
/// before a sync, and there is a desktop category, then after it every
/// desktop item is on the desktop, and every path on the desktop that is not
/// on the ignore list has exactly one desktop item. (Step 1 removes exactly
/// the desktop items whose path left the desktop: `removed_count`.)
pub proof fn lemma_sync_one_desktop_item_per_path(cfg: ConfigView, sc: Seq<ScannedView>, k: Seq<char>)
    requires
        unique_desktop_paths(cfg.categories),
        desktop_index(cfg.categories) is Some,
        live_keys(sc).contains(k),
        !ignored_keys(cfg.ignored).contains(k),
    ensures
        ({
            let out = sync_spec(cfg, sc).config.categories;
            &&& desktop_items_live(out, live_keys(sc))
            &&& exists|ci: int, ii: int|
                at(out, ci, ii) && norm_path_spec(#[trigger] out[ci].items[ii].path) == k
                    && out[ci].items[ii].source == ItemSource::Desktop
            &&& forall|ci: int, ii: int, cj: int, jj: int|
                at(out, ci, ii) && at(out, cj, jj) && out[ci].items[ii].source == ItemSource::Desktop
                    && out[cj].items[jj].source == ItemSource::Desktop && norm_path_spec(
                    #[trigger] out[ci].items[ii].path,
                ) == k && norm_path_spec(#[trigger] out[cj].items[jj].path) == k ==> ci == cj && ii == jj
        }),
{
    let out = sync_spec(cfg, sc).config.categories;
    let live = live_keys(sc);
    let c1 = after_removal(cfg.categories, live);
    let desk = desktop_index(c1);
    lemma_desktop_index_valid(c1);
    lemma_removal_desk_unique(cfg.categories, live);
    let st0 = ClaimState { cats: c1, claimed: desktop_keys(c1), ignored: ignored_keys(cfg.ignored), added: 0, adopted: 0 };
    lemma_claim_all_desk_unique(st0, sc, desk);
    let st = claim_all(st0, sc, desk);
    match desk {
        Some(d) => {
            lemma_sort_category_desk_unique(st.cats, d);
        },
        None => {},
    }
    assert(unique_desktop_paths(out));
    lemma_sync_keeps_categories(cfg, sc);
    lemma_same_shape_desktop_index(out, cfg.categories);
    lemma_sync_in_sync(cfg, sc);
    assert(has_key(out, k));
    assert(desktop_keys(out).contains(k));
    let ci = choose|ci: int| 0 <= ci < out.len() && #[trigger] item_desktop_keys(out[ci].items).contains(k);
    let ii = choose|ii: int|
        0 <= ii < out[ci].items.len() && #[trigger] out[ci].items[ii].source == ItemSource::Desktop
            && norm_path_spec(out[ci].items[ii].path) == k;
    assert(at(out, ci, ii));
    assert forall|ci: int, ii: int, cj: int, jj: int|
        at(out, ci, ii) && at(out, cj, jj) && out[ci].items[ii].source == ItemSource::Desktop
            && out[cj].items[jj].source == ItemSource::Desktop && norm_path_spec(
            #[trigger] out[ci].items[ii].path,
        ) == k && norm_path_spec(#[trigger] out[cj].items[jj].path) == k implies ci == cj && ii == jj by {
        assert(desk_apart_at(out, ci, ii, cj, jj));
        if ci == cj {
            assert(desk_distinct(out[ci].items));
            assert(desk_differ_at(out[ci].items, ii, jj));
        }
    }
}


// ---------------------------------------------------------------------------
// The desktop category after a sync

/// The categories after step 3 of a sync, before the desktop category is sorted.
pub open spec fn after_claims(cfg: ConfigView, sc: Seq<ScannedView>) -> Seq<CategoryView> {
    let live = live_keys(sc);
    let c1 = after_removal(cfg.categories, live);
    claim_all(
        ClaimState { cats: c1, claimed: desktop_keys(c1), ignored: ignored_keys(cfg.ignored), added: 0, adopted: 0 },
        sc,
        desktop_index(c1),
    ).cats
}

/// One entry of step 3 adds an item to the desktop category exactly when it
/// counts one more added item, and changes no other length.
proof fn lemma_claim_step_count(st: ClaimState, e: ScannedView, d: int)
    requires
        0 <= d < st.cats.len(),
    ensures
        claim_one(st, e, Some(d)).cats.len() == st.cats.len(),
        claim_one(st, e, Some(d)).added == st.added || claim_one(st, e, Some(d)).added == st.added + 1,
        claim_one(st, e, Some(d)).cats[d].items.len() + st.added == st.cats[d].items.len() + claim_one(
            st,
            e,
            Some(d),
        ).added,
{
    let key = norm_path_spec(e.path);
    if !st.claimed.contains(key) && has_key(st.cats, key) {
        lemma_holder_exists(st.cats, key);
    }
}

proof fn lemma_claim_all_count(st0: ClaimState, sc: Seq<ScannedView>, d: int)
    requires
        0 <= d < st0.cats.len(),
    ensures
        claim_all(st0, sc, Some(d)).cats.len() == st0.cats.len(),
        claim_all(st0, sc, Some(d)).added >= st0.added,
        claim_all(st0, sc, Some(d)).cats[d].items.len() + st0.added == st0.cats[d].items.len()
            + claim_all(st0, sc, Some(d)).added,
    decreases sc.len(),
{
    if sc.len() > 0 {
        lemma_claim_all_count(st0, sc.drop_last(), d);
        lemma_claim_step_count(claim_all(st0, sc.drop_last(), Some(d)), sc.last(), d);
    }
}

/// Step 4 and what the desktop category holds after a sync: its items are
/// sorted by (lower-cased name, path) and are a permutation of the items it
/// had after step 3, which are its surviving items, in place with the same
/// id, name and path, followed by exactly `added` new desktop items, each made
/// for an entry of the snapshot. (The other categories: `lemma_sync_keeps_order`.)
pub proof fn lemma_sync_desktop_category(cfg: ConfigView, sc: Seq<ScannedView>, d: int)
    requires
        desktop_index(cfg.categories) == Some(d),
    ensures
        ({
            let out = sync_spec(cfg, sc);
            let items = out.config.categories[d].items;
            let pre = after_claims(cfg, sc)[d].items;
            let kept = cfg.categories[d].items.filter(survives(live_keys(sc)));
            &&& sorted_by_key(items, item_key())
            &&& items.to_multiset() == pre.to_multiset()
            &&& pre.len() == kept.len() + out.added
            &&& forall|j: int| 0 <= j < kept.len() ==> same_item(#[trigger] pre[j], kept[j])
            &&& forall|t: int| kept.len() <= t < pre.len() ==> (#[trigger] pre[t]).source == ItemSource::Desktop
                && made_from(pre[t], sc)
        }),
{
    let st = lemma_sync_parts(cfg, sc);
    let live = live_keys(sc);
    let c1 = after_removal(cfg.categories, live);
    lemma_desktop_index_valid(cfg.categories);
    let st0 = ClaimState { cats: c1, claimed: desktop_keys(c1), ignored: ignored_keys(cfg.ignored), added: 0, adopted: 0 };
    lemma_claim_all_count(st0, sc, d);
    let pre = st.cats[d].items;
    assert(after_claims(cfg, sc) == st.cats);
    let kept = cfg.categories[d].items.filter(survives(live));
    assert(c1[d].items == kept);
    lemma_sort_sorted(pre, item_key());
    lemma_sort_multiset(pre, item_key());
    assert forall|j: int| 0 <= j < kept.len() implies same_item(#[trigger] pre[j], kept[j]) by {
        lemma_corr_old(st.cats, c1, sc, Some(d), d, j);
    }
    assert forall|t: int| kept.len() <= t < pre.len() implies (#[trigger] pre[t]).source == ItemSource::Desktop
        && made_from(pre[t], sc) by {
        lemma_corr_new(st.cats, c1, sc, Some(d), d, t);
        let i = choose|i: int| 0 <= i < sc.len() && pre[t] == new_item(#[trigger] sc[i]);
    }
}

} // verus!
