//! What each user action does to the configuration. Reading and writing the
//! file, the desktop scan and the shell calls happen around these functions.
use vstd::prelude::*;

use crate::config::{
    category_views, display_name_for, display_name_spec, find_category, is_clock_id,
    item_views, kind_for, kind_spec, norm_path, norm_path_spec, path_is_dir, recent_views,
    string_views, uid, AppConfig, Category, CategoryView, ConfigView, Item, ItemSource, ItemView, Recent,
    RecentView, Settings, MAX_RECENT,
};
use crate::desktop::{scanned_views, Scanned};
use crate::sync::{at, has_key, replace_items, sync, sync_spec, total_items, with_items, SyncReport};
use crate::text::{owned, push_decimal, decimal, trim, trimmed};

verus! {

/// Number of desktop items among `items`.
pub open spec fn desktop_items_in(items: Seq<ItemView>) -> nat
    decreases items.len(),
{
    if items.len() == 0 {
        0
    } else {
        desktop_items_in(items.drop_last()) + if items.last().source == ItemSource::Desktop {
            1nat
        } else {
            0nat
        }
    }
}

/// Number of desktop items in all categories.
pub open spec fn desktop_item_count(cats: Seq<CategoryView>) -> nat
    decreases cats.len(),
{
    if cats.len() == 0 {
        0
    } else {
        desktop_item_count(cats.drop_last()) + desktop_items_in(cats.last().items)
    }
}

proof fn lemma_desktop_items_bound(items: Seq<ItemView>)
    ensures
        desktop_items_in(items) <= items.len(),
    decreases items.len(),
{
    if items.len() > 0 {
        lemma_desktop_items_bound(items.drop_last());
    }
}

proof fn lemma_desktop_count_bound(cats: Seq<CategoryView>)
    ensures
        desktop_item_count(cats) <= total_items(cats),
    decreases cats.len(),
{
    if cats.len() > 0 {
        lemma_desktop_count_bound(cats.drop_last());
        lemma_desktop_items_bound(cats.last().items);
    }
}

/// How many desktop items the configuration holds, in all categories.
pub fn count_desktop_items(cfg: &AppConfig) -> (n: usize)
    requires
        total_items(cfg@.categories) <= usize::MAX,
    ensures
        n == desktop_item_count(cfg@.categories),
{
    let ghost cats = cfg@.categories;
    let mut n: usize = 0;
    let mut ci: usize = 0;
    while ci < cfg.categories.len()
        invariant
            ci <= cfg.categories.len(),
            cats == cfg@.categories,
            n == desktop_item_count(cats.take(ci as int)),
            total_items(cats) <= usize::MAX,
        decreases cfg.categories.len() - ci,
    {
        let items = &cfg.categories[ci].items;
        assert(item_views(items@) == cats[ci as int].items);
        let ghost base = n;
        let mut ii: usize = 0;
        proof {
            assert(cats.take(ci + 1).drop_last() =~= cats.take(ci as int));
            lemma_desktop_count_bound(cats.take(ci + 1));
            lemma_total_prefix(cats, ci + 1);
        }
        while ii < items.len()
            invariant
                ii <= items.len(),
                item_views(items@) == cats[ci as int].items,
                n == base + desktop_items_in(cats[ci as int].items.take(ii as int)),
                base + desktop_items_in(cats[ci as int].items) <= usize::MAX,
            decreases items.len() - ii,
        {
            proof {
                let t = cats[ci as int].items.take(ii + 1);
                assert(t.drop_last() =~= cats[ci as int].items.take(ii as int));
                lemma_desktop_prefix(cats[ci as int].items, ii + 1);
            }
            if items[ii].source == ItemSource::Desktop {
                n = n + 1;
            }
            ii += 1;
        }
        proof {
            assert(cats[ci as int].items.take(ii as int) =~= cats[ci as int].items);
        }
        ci += 1;
    }
    assert(cats.take(ci as int) =~= cats);
    n
}

proof fn lemma_desktop_prefix(items: Seq<ItemView>, k: int)
    requires
        0 <= k <= items.len(),
    ensures
        desktop_items_in(items.take(k)) <= desktop_items_in(items),
    decreases items.len(),
{
    if k < items.len() {
        assert(items.drop_last().take(k) =~= items.take(k));
        lemma_desktop_prefix(items.drop_last(), k);
    } else {
        assert(items.take(k) =~= items);
    }
}

proof fn lemma_total_prefix(cats: Seq<CategoryView>, k: int)
    requires
        0 <= k <= cats.len(),
    ensures
        total_items(cats.take(k)) <= total_items(cats),
    decreases cats.len(),
{
    if k < cats.len() {
        assert(cats.drop_last().take(k) =~= cats.take(k));
        lemma_total_prefix(cats.drop_last(), k);
    } else {
        assert(cats.take(k) =~= cats);
    }
}

/// "本次将移除 <removed> / <before> 个桌面条目，数量异常，已跳过同步以免误删。如果你确实在桌面上删掉了这些文件，点刷新按钮强制执行。"
pub open spec fn msg_mass_removal(removed: nat, before: nat) -> Seq<char> {
    seq!['本', '次', '将', '移', '除', ' '] + decimal(removed) + seq![' ', '/', ' '] + decimal(before)
        + seq![
        ' ', '个', '桌', '面', '条', '目', '，', '数', '量', '异', '常', '，', '已', '跳', '过', '同',
        '步', '以', '免', '误', '删', '。', '如', '果', '你', '确', '实', '在', '桌', '面', '上', '删',
        '掉', '了', '这', '些', '文', '件', '，', '点', '刷', '新', '按', '钮', '强', '制', '执', '行',
        '。',
    ]
}

/// Whether an implicit sync that would remove `removed` of `before` desktop
/// items must be skipped: more than ten and more than half of them.
pub open spec fn mass_removal(removed: nat, before: nat) -> bool {
    removed > 10 && removed * 2 > before
}

/// Merges a desktop scan into `cfg`.
///
/// A failed scan aborts the whole sync: it must never be taken for an empty
/// desktop. An implicit sync (`explicit == false`, at start-up) is also
/// skipped when it would remove more than ten desktop items and more than half
/// of them — a redirected desktop folder that scans "successfully" but empty
/// looks exactly like that. An explicit refresh is obeyed unconditionally.
/// Whenever the result is an error, `cfg` is unchanged.
pub fn sync_desktop_into(cfg: &mut AppConfig, scanned: Result<Vec<Scanned>, String>, explicit: bool) -> (r: Result<SyncReport, String>)
    requires
        total_items(old(cfg)@.categories) <= usize::MAX,
    ensures
        match scanned {
            Err(e) => r == Err::<SyncReport, String>(e) && final(cfg)@ == old(cfg)@,
            Ok(list) => {
                let out = sync_spec(old(cfg)@, scanned_views(list@));
                let before = desktop_item_count(old(cfg)@.categories);
                if !explicit && mass_removal(out.removed, before) {
                    r matches Err(m) && m@ == msg_mass_removal(out.removed, before) && final(cfg)@
                        == old(cfg)@
                } else {
                    r matches Ok(rep) && rep.added == out.added && rep.removed == out.removed
                        && rep.adopted == out.adopted && final(cfg)@ == out.config
                }
            },
        },
{
    let list = match scanned {
        Ok(l) => l,
        Err(e) => return Err(e),
    };
    let before = count_desktop_items(cfg);
    let mut trial = cfg.clone();
    let report = sync(&mut trial, list.as_slice());
    if !explicit && report.removed > 10 && report.removed > before / 2 {
        let mut m = owned("本次将移除 ");
        push_decimal(&mut m, report.removed as u128);
        let m = m.concat(" / ");
        let mut m = m;
        push_decimal(&mut m, before as u128);
        let m = m.concat(" 个桌面条目，数量异常，已跳过同步以免误删。如果你确实在桌面上删掉了这些文件，点刷新按钮强制执行。");
        proof {
            reveal_strlit("本次将移除 ");
            reveal_strlit(" / ");
            reveal_strlit(" 个桌面条目，数量异常，已跳过同步以免误删。如果你确实在桌面上删掉了这些文件，点刷新按钮强制执行。");
            assert(m@ =~= msg_mass_removal(report.removed as nat, before as nat));
        }
        return Err(m);
    }
    *cfg = trial;
    Ok(report)
}

// ---------------------------------------------------------------------------
// Dropping paths into a category

/// Some item among `items` has this normalized path.
pub open spec fn has_norm(items: Seq<ItemView>, key: Seq<char>) -> bool {
    exists|j: int| 0 <= j < items.len() && norm_path_spec(#[trigger] items[j].path) == key
}

/// Some path among `ps` has this normalized form.
pub open spec fn has_norm_path(ps: Seq<Seq<char>>, key: Seq<char>) -> bool {
    exists|j: int| 0 <= j < ps.len() && norm_path_spec(#[trigger] ps[j]) == key
}

/// The dropped paths that become new items, trimmed and in drop order: blank
/// ones are skipped, and so is a path whose normalized form an item of any
/// category already has (a path is unique across the whole configuration) or
/// an earlier dropped path had.
pub open spec fn accepted_paths(cats: Seq<CategoryView>, ps: Seq<Seq<char>>) -> Seq<Seq<char>>
    decreases ps.len(),
{
    if ps.len() == 0 {
        seq![]
    } else {
        let prev = accepted_paths(cats, ps.drop_last());
        let p = trimmed(ps.last());
        if p.len() == 0 || has_key(cats, norm_path_spec(p)) || has_norm_path(prev, norm_path_spec(p)) {
            prev
        } else {
            prev.push(p)
        }
    }
}

/// `x` is the manual item made for dropped path `p`: a clock-derived id, and a
/// name and kind that fit what the disk said about `p`.
pub open spec fn is_dropped_item(x: ItemView, p: Seq<char>) -> bool {
    &&& x.path == p
    &&& x.source == ItemSource::Manual
    &&& is_clock_id(x.id, 'i')
    &&& exists|d: bool| x.name == display_name_spec(p, d) && x.kind == kind_spec(p, d)
}

pub open spec fn opt_first(cats: Seq<CategoryView>, id: Seq<char>) -> Option<int> {
    if crate::config::has_category(cats, id) {
        Some(crate::normalize::first_index(cats, id))
    } else {
        None
    }
}

/// The configuration with only its categories replaced.
pub open spec fn with_categories(c: ConfigView, cats: Seq<CategoryView>) -> ConfigView {
    ConfigView {
        schema_version: c.schema_version,
        categories: cats,
        recent: c.recent,
        settings: c.settings,
        ignored: c.ignored,
    }
}

/// Finds the first category with this id, as `opt_first` describes it.
fn locate_category(cats: &Vec<Category>, id: &String) -> (r: Option<usize>)
    ensures
        match r {
            Some(k) => opt_first(category_views(cats@), id@) == Some(k as int) && k < cats.len(),
            None => opt_first(category_views(cats@), id@) is None,
        },
{
    match find_category(cats, id) {
        Some(k) => {
            proof {
                assert(category_views(cats@)[k as int].id == id@);
                crate::normalize::lemma_first_index(category_views(cats@), id@, k as int);
            }
            Some(k)
        },
        None => None,
    }
}

/// Adds dropped paths to a category as manual items, skipping blank paths and
/// paths that any category already has (by normalized path). An unknown
/// category changes nothing. No file is touched.
pub fn add_paths(cfg: &mut AppConfig, category_id: &str, paths: Vec<String>)
    ensures
        match opt_first(old(cfg)@.categories, category_id@) {
            None => final(cfg)@ == old(cfg)@,
            Some(k) => {
                let old_items = old(cfg)@.categories[k].items;
                let new_items = final(cfg)@.categories[k].items;
                let acc = accepted_paths(old(cfg)@.categories, string_views(paths@));
                &&& final(cfg)@ == with_categories(
                    old(cfg)@,
                    old(cfg)@.categories.update(k, with_items(old(cfg)@.categories[k], new_items)),
                )
                &&& new_items.len() == old_items.len() + acc.len()
                &&& new_items.take(old_items.len() as int) == old_items
                &&& forall|t: int|
                    0 <= t < acc.len() ==> is_dropped_item(
                        #[trigger] new_items[old_items.len() + t],
                        acc[t],
                    )
            },
        },
{
    let cid = owned(category_id);
    let k = match locate_category(&cfg.categories, &cid) {
        Some(k) => k,
        None => return ,
    };
    let ghost start = cfg@;
    let ghost old_items = start.categories[k as int].items;
    let ghost ps = string_views(paths@);
    let none: Vec<Item> = Vec::new();
    proof {
        assert(item_views(none@) =~= Seq::<ItemView>::empty());
    }
    let mut items = replace_items(&mut cfg.categories, k, none);
    let ghost emptied = category_views(cfg.categories@);
    proof {
        assert(emptied =~= start.categories.update(k as int, with_items(start.categories[k as int], seq![])));
        lemma_has_key_split(start.categories, k as int);
    }
    let mut i: usize = 0;
    while i < paths.len()
        invariant
            i <= paths.len(),
            ps == string_views(paths@),
            k < start.categories.len(),
            old_items == start.categories[k as int].items,
            category_views(cfg.categories@) == emptied,
            emptied == start.categories.update(k as int, with_items(start.categories[k as int], seq![])),
            forall|key: Seq<char>| #[trigger] has_key(start.categories, key) == (has_norm(old_items, key) || has_key(emptied, key)),
            item_views(items@).len() == old_items.len() + accepted_paths(start.categories, ps.take(i as int)).len(),
            item_views(items@).take(old_items.len() as int) == old_items,
            forall|t: int|
                0 <= t < accepted_paths(start.categories, ps.take(i as int)).len() ==> is_dropped_item(
                    #[trigger] item_views(items@)[old_items.len() + t],
                    accepted_paths(start.categories, ps.take(i as int))[t],
                ),
        decreases paths.len() - i,
    {
        let ghost acc = accepted_paths(start.categories, ps.take(i as int));
        let ghost cur = item_views(items@);
        proof {
            assert(ps.take(i + 1).drop_last() =~= ps.take(i as int));
            assert(ps.take(i + 1).last() == ps[i as int]);
        }
        let p = trim(paths[i].as_str());
        if chars_len(&p) > 0 {
            let key = norm_path(p.as_str());
            // Already present, by normalized path?
            let mut dup = false;
            let mut j: usize = 0;
            while j < items.len()
                invariant
                    j <= items.len(),
                    item_views(items@) == cur,
                    dup == exists|m: int| 0 <= m < j && norm_path_spec(#[trigger] cur[m].path) == key@,
                decreases items.len() - j,
            {
                assert(cur[j as int] == items@[j as int]@);
                let matched = norm_path(items[j].path.as_str()) == key;
                if matched {
                    dup = true;
                    assert(norm_path_spec(cur[j as int].path) == key@);
                } else {
                    assert(norm_path_spec(cur[j as int].path) != key@);
                }
                j += 1;
            }
            let elsewhere = config_has_key(&cfg.categories, &key);
            proof {
                let known = has_norm(old_items, key@) || has_norm_path(acc, key@);
                assert(has_key(start.categories, key@) == (has_norm(old_items, key@) || elsewhere));
                assert(dup == known) by {
                    if dup {
                        let m = choose|m: int| 0 <= m < cur.len() && norm_path_spec(#[trigger] cur[m].path) == key@;
                        if m < old_items.len() {
                            assert(cur.take(old_items.len() as int)[m] == cur[m]);
                            assert(norm_path_spec(old_items[m].path) == key@);
                        } else {
                            assert(is_dropped_item(cur[old_items.len() + (m - old_items.len())], acc[m - old_items.len()]));
                            assert(norm_path_spec(acc[m - old_items.len()]) == key@);
                        }
                    }
                    if has_norm(old_items, key@) {
                        let m = choose|m: int| 0 <= m < old_items.len() && norm_path_spec(#[trigger] old_items[m].path) == key@;
                        assert(cur.take(old_items.len() as int)[m] == cur[m]);
                        assert(norm_path_spec(cur[m].path) == key@);
                    }
                    if has_norm_path(acc, key@) {
                        let m = choose|m: int| 0 <= m < acc.len() && norm_path_spec(#[trigger] acc[m]) == key@;
                        assert(is_dropped_item(cur[old_items.len() + m], acc[m]));
                        assert(norm_path_spec(cur[old_items.len() + m].path) == key@);
                    }
                }
            }
            if !dup && !elsewhere {
                let d = path_is_dir(p.as_str());
                let item = Item {
                    id: uid(),
                    name: display_name_for(p.as_str(), d),
                    kind: kind_for(p.as_str(), d),
                    path: p,
                    source: ItemSource::Manual,
                };
                assert(is_dropped_item(item@, trimmed(ps[i as int])));
                items.push(item);
                proof {
                    let acc2 = acc.push(trimmed(ps[i as int]));
                    assert(item_views(items@) =~= cur.push(item@));
                    assert(item_views(items@).take(old_items.len() as int) =~= cur.take(old_items.len() as int));
                    assert forall|t: int| 0 <= t < acc2.len() implies is_dropped_item(
                        #[trigger] item_views(items@)[old_items.len() + t],
                        acc2[t],
                    ) by {
                        if t < acc.len() {
                            assert(item_views(items@)[old_items.len() + t] == cur[old_items.len() + t]);
                        }
                    }
                }
            }
        }
        i += 1;
    }
    proof {
        assert(ps.take(paths.len() as int) =~= ps);
    }
    let ghost fin = item_views(items@);
    let _ = replace_items(&mut cfg.categories, k, items);
    assert(cfg@.categories =~= start.categories.update(k as int, with_items(start.categories[k as int], fin)));
}

/// Number of characters of `s`.
fn chars_len(s: &String) -> (n: usize)
    ensures
        n == s@.len(),
{
    crate::text::chars_of(s.as_str()).len()
}

// ---------------------------------------------------------------------------
// Removing, renaming and moving items

/// Index of the first item with this id.
pub open spec fn first_item(items: Seq<ItemView>, id: Seq<char>) -> Option<int>
    decreases items.len(),
{
    if items.len() == 0 {
        None
    } else {
        match first_item(items.drop_last(), id) {
            Some(j) => Some(j),
            None => if items.last().id == id {
                Some(items.len() - 1)
            } else {
                None
            },
        }
    }
}

pub open spec fn id_not(id: Seq<char>) -> spec_fn(ItemView) -> bool {
    |x: ItemView| x.id != id
}

proof fn lemma_first_item_prefix(items: Seq<ItemView>, id: Seq<char>, k: int)
    requires
        0 <= k <= items.len(),
        first_item(items.take(k), id) is Some,
    ensures
        first_item(items, id) == first_item(items.take(k), id),
    decreases items.len() - k,
{
    if k < items.len() {
        assert(items.take(k + 1).drop_last() =~= items.take(k));
        lemma_first_item_prefix(items, id, k + 1);
    } else {
        assert(items.take(k) =~= items);
    }
}

pub proof fn lemma_first_item_facts(items: Seq<ItemView>, id: Seq<char>)
    ensures
        first_item(items, id) matches Some(j) ==> 0 <= j < items.len() && items[j].id == id,
        first_item(items, id) is None ==> forall|j: int| 0 <= j < items.len() ==> #[trigger] items[j].id != id,
    decreases items.len(),
{
    if items.len() > 0 {
        lemma_first_item_facts(items.drop_last(), id);
        if first_item(items, id) is None {
            assert forall|j: int| 0 <= j < items.len() implies #[trigger] items[j].id != id by {
                if j < items.len() - 1 {
                    assert(items.drop_last()[j] == items[j]);
                }
            }
        }
    }
}

fn locate_item(items: &Vec<Item>, id: &String) -> (r: Option<usize>)
    ensures
        match r {
            Some(j) => j < items.len() && first_item(item_views(items@), id@) == Some(j as int),
            None => first_item(item_views(items@), id@) is None,
        },
{
    let ghost v = item_views(items@);
    let mut j: usize = 0;
    while j < items.len()
        invariant
            j <= items.len(),
            v == item_views(items@),
            first_item(v.take(j as int), id@) is None,
        decreases items.len() - j,
    {
        proof {
            assert(v.take(j + 1).drop_last() =~= v.take(j as int));
            assert(v.take(j + 1).last() == v[j as int]);
        }
        if items[j].id == *id {
            proof {
                lemma_first_item_prefix(v, id@, j + 1);
            }
            return Some(j);
        }
        j += 1;
    }
    assert(v.take(j as int) =~= v);
    None
}

/// The ignore list after removing item `x`: a desktop item's normalized path is
/// recorded once, so the next sync does not bring it back.
pub open spec fn ignore_after_removal(ignored: Seq<Seq<char>>, x: ItemView) -> Seq<Seq<char>> {
    if x.source == ItemSource::Desktop && !ignored.contains(norm_path_spec(x.path)) {
        ignored.push(norm_path_spec(x.path))
    } else {
        ignored
    }
}

/// Removing a desktop item, whatever its kind, leaves its normalized path on
/// the ignore list; every path already there stays, and the list grows by at
/// most that one path. Removing any other item leaves the list as it was.
pub proof fn lemma_removal_ignores_desktop_path(ignored: Seq<Seq<char>>, x: ItemView)
    ensures
        x.source == ItemSource::Desktop ==> ignore_after_removal(ignored, x).contains(norm_path_spec(x.path)),
        x.source != ItemSource::Desktop ==> ignore_after_removal(ignored, x) == ignored,
        ignore_after_removal(ignored, x).take(ignored.len() as int) == ignored,
        ignore_after_removal(ignored, x).len() <= ignored.len() + 1,
{
    let r = ignore_after_removal(ignored, x);
    if x.source == ItemSource::Desktop {
        if ignored.contains(norm_path_spec(x.path)) {
            assert(r.take(ignored.len() as int) =~= ignored);
        } else {
            assert(r[ignored.len() as int] == norm_path_spec(x.path));
            assert(r.take(ignored.len() as int) =~= ignored);
        }
    } else {
        assert(r.take(ignored.len() as int) =~= ignored);
    }
}

/// Removes an item from a category. A desktop item's path goes on the ignore
/// list, otherwise the next sync would scan it straight back in. Unknown
/// categories or items change nothing.
pub fn remove_item(cfg: &mut AppConfig, category_id: &str, item_id: &str)
    ensures
        match opt_first(old(cfg)@.categories, category_id@) {
            None => final(cfg)@ == old(cfg)@,
            Some(k) => {
                let items = old(cfg)@.categories[k].items;
                &&& final(cfg)@.categories == old(cfg)@.categories.update(
                    k,
                    with_items(old(cfg)@.categories[k], items.filter(id_not(item_id@))),
                )
                &&& final(cfg)@.ignored == match first_item(items, item_id@) {
                    Some(j) => ignore_after_removal(old(cfg)@.ignored, items[j]),
                    None => old(cfg)@.ignored,
                }
                &&& final(cfg)@.recent == old(cfg)@.recent
                &&& final(cfg)@.settings == old(cfg)@.settings
                &&& final(cfg)@.schema_version == old(cfg)@.schema_version
            },
        },
{
    let cid = owned(category_id);
    let iid = owned(item_id);
    let k = match locate_category(&cfg.categories, &cid) {
        Some(k) => k,
        None => return ,
    };
    let ghost start = cfg@;
    assert(item_views(cfg.categories@[k as int].items@) == start.categories[k as int].items);
    match locate_item(&cfg.categories[k].items, &iid) {
        Some(j) => {
            let it = &cfg.categories[k].items[j];
            if it.source == ItemSource::Desktop {
                let key = norm_path(it.path.as_str());
                note_ignored(&mut cfg.ignored, key);
            }
        },
        None => {},
    }
    let items = replace_items(&mut cfg.categories, k, Vec::new());
    let kept = drop_items_with_id(items, &iid);
    let _ = replace_items(&mut cfg.categories, k, kept);
}

/// Records `key` on the ignore list unless it is already there.
fn note_ignored(ignored: &mut Vec<String>, key: String)
    ensures
        string_views(final(ignored)@) == if string_views(old(ignored)@).contains(key@) {
            string_views(old(ignored)@)
        } else {
            string_views(old(ignored)@).push(key@)
        },
{
    let mut present = false;
    let mut t: usize = 0;
    while t < ignored.len()
        invariant
            t <= ignored.len(),
            present == exists|m: int| 0 <= m < t && (#[trigger] ignored@[m])@ == key@,
        decreases ignored.len() - t,
    {
        if ignored[t] == key {
            present = true;
        }
        t += 1;
    }
    proof {
        if present {
            let m = choose|m: int| 0 <= m < t && (#[trigger] ignored@[m])@ == key@;
            assert(string_views(ignored@)[m] == key@);
        } else {
            assert forall|m: int| 0 <= m < ignored.len() implies string_views(ignored@)[m] != key@ by {
                assert(string_views(ignored@)[m] == ignored@[m]@);
            }
        }
    }
    if !present {
        let ghost before = string_views(ignored@);
        ignored.push(key);
        assert(string_views(ignored@) =~= before.push(key@));
    }
}

/// The items whose id is not `id`, in order.
fn drop_items_with_id(items: Vec<Item>, id: &String) -> (r: Vec<Item>)
    ensures
        item_views(r@) == item_views(items@).filter(id_not(id@)),
{
    let ghost all = item_views(items@);
    let mut rest = items;
    let mut kept: Vec<Item> = Vec::new();
    let ghost mut i: int = 0;
    while rest.len() > 0
        invariant
            0 <= i <= all.len(),
            item_views(rest@) == all.skip(i),
            item_views(kept@) == all.take(i).filter(id_not(id@)),
        decreases rest.len(),
    {
        assert(item_views(rest@).len() == rest@.len());
        let ghost rv = item_views(rest@);
        let it = rest.remove(0);
        proof {
            assert(rv[0] == it@);
            assert(all.take(i + 1) =~= all.take(i).push(all[i]));
            all.take(i).lemma_filter_push(all[i], id_not(id@));
            assert(all.skip(i + 1) =~= all.skip(i).drop_first());
        }
        let ghost before = item_views(kept@);
        if it.id != *id {
            kept.push(it);
            assert(item_views(kept@) =~= before.push(all[i]));
        }
        proof {
            i = i + 1;
        }
    }
    assert(all.take(i) =~= all);
    kept
}

/// The same item under another name.
pub open spec fn item_renamed(x: ItemView, name: Seq<char>) -> ItemView {
    ItemView { id: x.id, name, path: x.path, kind: x.kind, source: x.source }
}

fn rename_at(items: Vec<Item>, j: usize, name: String) -> (r: Vec<Item>)
    requires
        j < items.len(),
    ensures
        item_views(r@) == item_views(items@).update(j as int, item_renamed(item_views(items@)[j as int], name@)),
{
    let mut items = items;
    let ghost before = item_views(items@);
    let mut it = items.remove(j);
    it.name = name;
    items.insert(j, it);
    assert(item_views(items@) =~= before.update(j as int, item_renamed(before[j as int], name@)));
    items
}

/// The configuration after renaming item `iid` of category `cid` to the trimmed `name`.
pub open spec fn renamed_config(c: ConfigView, cid: Seq<char>, iid: Seq<char>, name: Seq<char>) -> ConfigView {
    let n = trimmed(name);
    match opt_first(c.categories, cid) {
        Some(k) => match first_item(c.categories[k].items, iid) {
            Some(j) => if n.len() > 0 {
                with_categories(
                    c,
                    c.categories.update(
                        k,
                        with_items(
                            c.categories[k],
                            c.categories[k].items.update(j, item_renamed(c.categories[k].items[j], n)),
                        ),
                    ),
                )
            } else {
                c
            },
            None => c,
        },
        None => c,
    }
}

/// Renames an item (surrounding whitespace removed). A blank name, an unknown
/// category or an unknown item changes nothing.
pub fn rename_item(cfg: &mut AppConfig, category_id: &str, item_id: &str, name: &str)
    ensures
        final(cfg)@ == renamed_config(old(cfg)@, category_id@, item_id@, name@),
{
    let n = trim(name);
    if chars_len(&n) == 0 {
        return ;
    }
    let cid = owned(category_id);
    let iid = owned(item_id);
    let k = match locate_category(&cfg.categories, &cid) {
        Some(k) => k,
        None => return ,
    };
    let ghost start = cfg@;
    assert(item_views(cfg.categories@[k as int].items@) == start.categories[k as int].items);
    let j = match locate_item(&cfg.categories[k].items, &iid) {
        Some(j) => j,
        None => return ,
    };
    let items = replace_items(&mut cfg.categories, k, Vec::new());
    let items = rename_at(items, j, n);
    let _ = replace_items(&mut cfg.categories, k, items);
    assert(cfg@.categories =~= start.categories.update(
        k as int,
        with_items(
            start.categories[k as int],
            start.categories[k as int].items.update(
                j as int,
                item_renamed(start.categories[k as int].items[j as int], trimmed(name@)),
            ),
        ),
    ));
}

// ---------------------------------------------------------------------------
// Recent list and settings

pub open spec fn path_not(key: Seq<char>) -> spec_fn(RecentView) -> bool {
    |r: RecentView| norm_path_spec(r.path) != key
}

/// The recent list after opening `entry`: newest first, an older entry for the
/// same normalized path dropped, at most `MAX_RECENT` long.
pub open spec fn recent_after_open(recent: Seq<RecentView>, entry: RecentView) -> Seq<RecentView> {
    let l = seq![entry] + recent.filter(path_not(norm_path_spec(entry.path)));
    l.take(crate::normalize::min_recent(l.len()))
}

/// No two recent entries share a normalized path.
pub open spec fn recent_distinct(r: Seq<RecentView>) -> bool {
    forall|a: int, b: int| 0 <= a < b < r.len() ==> norm_path_spec(#[trigger] r[a].path) != norm_path_spec(#[trigger] r[b].path)
}

proof fn lemma_filter_recent_distinct(s: Seq<RecentView>, p: spec_fn(RecentView) -> bool)
    requires
        recent_distinct(s),
    ensures
        recent_distinct(s.filter(p)),
    decreases s.len(),
{
    reveal(Seq::filter);
    if s.len() > 0 {
        let q = s.drop_last();
        assert forall|a: int, b: int| 0 <= a < b < q.len() implies norm_path_spec(#[trigger] q[a].path)
            != norm_path_spec(#[trigger] q[b].path) by {
            assert(q[a] == s[a] && q[b] == s[b]);
        }
        lemma_filter_recent_distinct(q, p);
        let f = q.filter(p);
        if p(s.last()) {
            let r = f.push(s.last());
            assert forall|a: int, b: int| 0 <= a < b < r.len() implies norm_path_spec(#[trigger] r[a].path)
                != norm_path_spec(#[trigger] r[b].path) by {
                if b == f.len() {
                    assert(f.contains(f[a]));
                    q.lemma_filter_contains_rev(p, f[a]);
                    let w = choose|w: int| 0 <= w < q.len() && q[w] == f[a];
                    assert(s[w] == q[w]);
                    assert(r[b] == s[s.len() - 1]);
                } else {
                    assert(r[a] == f[a] && r[b] == f[b]);
                }
            }
        }
    }
}

/// Opening a path puts it first in the recent list, keeps that list free of
/// two entries for the same normalized path, and never lets it grow past
/// `MAX_RECENT` entries.
pub proof fn lemma_recent_after_open(recent: Seq<RecentView>, entry: RecentView)
    requires
        recent_distinct(recent),
    ensures
        recent_after_open(recent, entry).len() <= MAX_RECENT,
        recent_after_open(recent, entry)[0] == entry,
        recent_distinct(recent_after_open(recent, entry)),
{
    broadcast use vstd::seq_lib::group_filter_ensures;

    let key = norm_path_spec(entry.path);
    let f = recent.filter(path_not(key));
    lemma_filter_recent_distinct(recent, path_not(key));
    let l = seq![entry] + f;
    let r = recent_after_open(recent, entry);
    assert(r == l.take(crate::normalize::min_recent(l.len())));
    assert forall|a: int, b: int| 0 <= a < b < r.len() implies norm_path_spec(#[trigger] r[a].path)
        != norm_path_spec(#[trigger] r[b].path) by {
        assert(r[b] == l[b] && l[b] == f[b - 1]);
        assert(path_not(key)(f[b - 1]));
        if a > 0 {
            assert(r[a] == l[a] && l[a] == f[a - 1]);
        }
    }
}

/// Opening a path drops only older entries for the same normalized path: every
/// entry after the new first one is an older entry for another path, and while
/// the list has room every older entry for another path is kept.
pub proof fn lemma_recent_keeps_other_paths(recent: Seq<RecentView>, entry: RecentView)
    ensures
        ({
            let r = recent_after_open(recent, entry);
            &&& r.len() >= 1
            &&& r[0] == entry
            &&& forall|j: int|
                1 <= j < r.len() ==> recent.contains(#[trigger] r[j]) && norm_path_spec(r[j].path)
                    != norm_path_spec(entry.path)
            &&& recent.len() < MAX_RECENT ==> forall|t: int|
                0 <= t < recent.len() && norm_path_spec(#[trigger] recent[t].path) != norm_path_spec(entry.path)
                    ==> r.contains(recent[t])
        }),
{
    broadcast use vstd::seq_lib::group_filter_ensures;

    let key = norm_path_spec(entry.path);
    let f = recent.filter(path_not(key));
    let l = seq![entry] + f;
    let r = recent_after_open(recent, entry);
    assert(r == l.take(crate::normalize::min_recent(l.len())));
    assert(MAX_RECENT >= 1);
    assert(r[0] == entry);
    assert forall|j: int| 1 <= j < r.len() implies recent.contains(#[trigger] r[j]) && norm_path_spec(r[j].path)
        != norm_path_spec(entry.path) by {
        assert(r[j] == l[j] && l[j] == f[j - 1]);
        assert(path_not(key)(f[j - 1]));
        assert(f.contains(f[j - 1]));
        recent.lemma_filter_contains_rev(path_not(key), f[j - 1]);
    }
    if recent.len() < MAX_RECENT {
        recent.lemma_filter_len(path_not(key));
        assert(r == l);
        assert forall|t: int|
            0 <= t < recent.len() && norm_path_spec(#[trigger] recent[t].path) != norm_path_spec(entry.path)
                implies r.contains(recent[t]) by {
            assert(path_not(key)(recent[t]));
            assert(f.contains(recent[t]));
            let w = choose|w: int| 0 <= w < f.len() && f[w] == recent[t];
            assert(l[w + 1] == f[w]);
        }
    }
}

/// Records that `path` was opened at time `at` (seconds since the epoch).
pub fn record_open(cfg: &mut AppConfig, path: &str, at: u64)
    ensures
        exists|d: bool|
            final(cfg)@.recent == recent_after_open(
                old(cfg)@.recent,
                RecentView { name: display_name_spec(path@, d), path: path@, at },
            ),
        final(cfg)@.categories == old(cfg)@.categories,
        final(cfg)@.ignored == old(cfg)@.ignored,
        final(cfg)@.settings == old(cfg)@.settings,
        final(cfg)@.schema_version == old(cfg)@.schema_version,
{
    let d = path_is_dir(path);
    let name = display_name_for(path, d);
    let key = norm_path(path);
    let ghost all = recent_views(cfg.recent@);
    let mut rest: Vec<Recent> = Vec::new();
    std::mem::swap(&mut rest, &mut cfg.recent);
    let mut kept: Vec<Recent> = Vec::new();
    kept.push(Recent { name, path: owned(path), at });
    let ghost entry = kept@[0]@;
    let ghost mut i: int = 0;
    while rest.len() > 0
        invariant
            0 <= i <= all.len(),
            recent_views(rest@) == all.skip(i),
            recent_views(kept@) == seq![entry] + all.take(i).filter(path_not(key@)),
        decreases rest.len(),
    {
        assert(recent_views(rest@).len() == rest@.len());
        let ghost rv = recent_views(rest@);
        let r = rest.remove(0);
        proof {
            assert(rv[0] == r@);
            assert(all.take(i + 1) =~= all.take(i).push(all[i]));
            all.take(i).lemma_filter_push(all[i], path_not(key@));
            assert(all.skip(i + 1) =~= all.skip(i).drop_first());
        }
        let ghost before = recent_views(kept@);
        if norm_path(r.path.as_str()) != key {
            kept.push(r);
            assert(recent_views(kept@) =~= before.push(all[i]));
        }
        proof {
            i = i + 1;
        }
    }
    assert(all.take(i) =~= all);
    kept.truncate(MAX_RECENT);
    cfg.recent = kept;
    assert(cfg@.recent =~= recent_after_open(all, entry));
}

/// Empties the recent list.
pub fn clear_recent(cfg: &mut AppConfig)
    ensures
        final(cfg)@ == (ConfigView { recent: seq![], ..old(cfg)@ }),
{
    cfg.recent.clear();
    assert(cfg@.recent =~= seq![]);
}

/// Stores the auto-hide and autostart switches.
pub fn set_settings(cfg: &mut AppConfig, auto_hide: bool, autostart: bool)
    ensures
        final(cfg)@.settings == (crate::config::Settings { auto_hide, autostart, ..old(cfg)@.settings }),
        final(cfg)@.categories == old(cfg)@.categories,
        final(cfg)@.recent == old(cfg)@.recent,
        final(cfg)@.ignored == old(cfg)@.ignored,
        final(cfg)@.schema_version == old(cfg)@.schema_version,
{
    cfg.settings.autostart = autostart;
    cfg.settings.auto_hide = auto_hide;
}

// ---------------------------------------------------------------------------
// Moving an item between categories

/// "找不到条目：<id>"
pub open spec fn msg_no_item(id: Seq<char>) -> Seq<char> {
    seq!['找', '不', '到', '条', '目', '：'] + id
}

/// "分类不存在：<id>"
pub open spec fn msg_no_target(id: Seq<char>) -> Seq<char> {
    seq!['分', '类', '不', '存', '在', '：'] + id
}

pub open spec fn has_item_id(c: CategoryView, id: Seq<char>) -> bool {
    exists|j: int| 0 <= j < c.items.len() && #[trigger] c.items[j].id == id
}

/// Index of the first category holding an item with this id.
pub open spec fn holding_category(cats: Seq<CategoryView>, id: Seq<char>) -> Option<int>
    decreases cats.len(),
{
    if cats.len() == 0 {
        None
    } else {
        match holding_category(cats.drop_last(), id) {
            Some(c) => Some(c),
            None => if has_item_id(cats.last(), id) {
                Some(cats.len() - 1)
            } else {
                None
            },
        }
    }
}

proof fn lemma_holding_prefix(cats: Seq<CategoryView>, id: Seq<char>, k: int)
    requires
        0 <= k <= cats.len(),
        holding_category(cats.take(k), id) is Some,
    ensures
        holding_category(cats, id) == holding_category(cats.take(k), id),
    decreases cats.len() - k,
{
    if k < cats.len() {
        assert(cats.take(k + 1).drop_last() =~= cats.take(k));
        lemma_holding_prefix(cats, id, k + 1);
    } else {
        assert(cats.take(k) =~= cats);
    }
}

proof fn lemma_holding_facts(cats: Seq<CategoryView>, id: Seq<char>)
    ensures
        holding_category(cats, id) matches Some(c) ==> 0 <= c < cats.len() && has_item_id(cats[c], id),
    decreases cats.len(),
{
    if cats.len() > 0 {
        lemma_holding_facts(cats.drop_last(), id);
    }
}

/// The configuration after moving item `iid` to category `to` (when both exist
/// and differ): the item leaves its category and is appended to the target
/// unless the target already has its normalized path.
pub open spec fn moved_config(c: ConfigView, iid: Seq<char>, to: Seq<char>) -> ConfigView {
    let from = holding_category(c.categories, iid)->0;
    let t = opt_first(c.categories, to)->0;
    let items = c.categories[from].items;
    let j = first_item(items, iid)->0;
    let x = items[j];
    let cats1 = c.categories.update(from, with_items(c.categories[from], items.remove(j)));
    if has_norm(c.categories[t].items, norm_path_spec(x.path)) {
        with_categories(c, cats1)
    } else {
        with_categories(c, cats1.update(t, with_items(cats1[t], cats1[t].items.push(x))))
    }
}

/// Moves an item into another category. Only the mapping changes; the file
/// system is not touched, and the item keeps its `source`, so a desktop item
/// moved elsewhere is still removed when it leaves the desktop.
///
/// `Ok(true)`: moved; `Ok(false)`: it already was in that category.
pub fn move_item(cfg: &mut AppConfig, item_id: &str, to_category_id: &str) -> (r: Result<bool, String>)
    ensures
        match holding_category(old(cfg)@.categories, item_id@) {
            None => r matches Err(m) && m@ == msg_no_item(item_id@) && final(cfg)@ == old(cfg)@,
            Some(from) => match opt_first(old(cfg)@.categories, to_category_id@) {
                None => r matches Err(m) && m@ == msg_no_target(to_category_id@) && final(cfg)@
                    == old(cfg)@,
                Some(t) => if from == t {
                    r == Ok::<bool, String>(false) && final(cfg)@ == old(cfg)@
                } else {
                    r == Ok::<bool, String>(true) && final(cfg)@ == moved_config(
                        old(cfg)@,
                        item_id@,
                        to_category_id@,
                    )
                },
            },
        },
{
    let iid = owned(item_id);
    let to = owned(to_category_id);
    let ghost start = cfg@;
    let from = match find_holding(&cfg.categories, &iid) {
        Some(f) => f,
        None => {
            let m = owned("找不到条目：").concat(item_id);
            proof {
                reveal_strlit("找不到条目：");
                assert(m@ =~= msg_no_item(item_id@));
            }
            return Err(m);
        },
    };
    let t = match locate_category(&cfg.categories, &to) {
        Some(t) => t,
        None => {
            let m = owned("分类不存在：").concat(to_category_id);
            proof {
                reveal_strlit("分类不存在：");
                assert(m@ =~= msg_no_target(to_category_id@));
            }
            return Err(m);
        },
    };
    if from == t {
        return Ok(false);
    }
    transfer(cfg, from, t, &iid);
    Ok(true)
}

/// Performs the move of `moved_config` once both categories are known.
fn transfer(cfg: &mut AppConfig, from: usize, t: usize, iid: &String)
    requires
        holding_category(old(cfg)@.categories, iid@) == Some(from as int),
        from < old(cfg).categories.len(),
        t < old(cfg).categories.len(),
        from != t,
    ensures
        ({
            let c = old(cfg)@;
            let items = c.categories[from as int].items;
            let j = first_item(items, iid@)->0;
            let x = items[j];
            let cats1 = c.categories.update(from as int, with_items(c.categories[from as int], items.remove(j)));
            final(cfg)@ == if has_norm(c.categories[t as int].items, norm_path_spec(x.path)) {
                with_categories(c, cats1)
            } else {
                with_categories(c, cats1.update(t as int, with_items(cats1[t as int], cats1[t as int].items.push(x))))
            }
        }),
{
    let ghost start = cfg@;
    let ghost cats = start.categories;
    assert(item_views(cfg.categories@[from as int].items@) == cats[from as int].items);
    let j = match locate_item(&cfg.categories[from].items, iid) {
        Some(j) => j,
        None => {
            proof {
                lemma_holding_facts(cats, iid@);
                lemma_first_item_facts(cats[from as int].items, iid@);
                let q = choose|q: int| 0 <= q < cats[from as int].items.len() && #[trigger] cats[from as int].items[q].id == iid@;
                assert(cats[from as int].items[q].id != iid@);
            }
            return ;
        },
    };
    let mut items = replace_items(&mut cfg.categories, from, Vec::new());
    let ghost before = item_views(items@);
    let x = items.remove(j);
    assert(item_views(items@) =~= before.remove(j as int));
    let _ = replace_items(&mut cfg.categories, from, items);
    let key = norm_path(x.path.as_str());
    assert(category_views(cfg.categories@)[t as int] == cats[t as int]);
    assert(cfg.categories@[t as int]@ == cats[t as int]);
    assert(item_views(cfg.categories@[t as int].items@) == cats[t as int].items);
    let dup = has_norm_exec(&cfg.categories[t].items, &key);
    let ghost cats1 = cats.update(from as int, with_items(cats[from as int], before.remove(j as int)));
    assert(category_views(cfg.categories@) =~= cats1);
    let ghost xv = x@;
    assert(xv == cats[from as int].items[j as int]);
    if !dup {
        let mut items = replace_items(&mut cfg.categories, t, Vec::new());
        let ghost b2 = item_views(items@);
        items.push(x);
        assert(item_views(items@) =~= b2.push(xv));
        let _ = replace_items(&mut cfg.categories, t, items);
        assert(category_views(cfg.categories@) =~= cats1.update(t as int, with_items(cats1[t as int], cats1[t as int].items.push(xv))));
    }
}

/// Some item of category `k` has the path exactly when some item of `cats`
/// with category `k` emptied has it, or category `k` itself does.
proof fn lemma_has_key_split(cats: Seq<CategoryView>, k: int)
    requires
        0 <= k < cats.len(),
    ensures
        forall|key: Seq<char>| #[trigger] has_key(cats, key) == (has_norm(cats[k].items, key) || has_key(
            cats.update(k, with_items(cats[k], seq![])),
            key,
        )),
{
    let e = cats.update(k, with_items(cats[k], seq![]));
    assert forall|key: Seq<char>| #[trigger] has_key(cats, key) == (has_norm(cats[k].items, key) || has_key(e, key)) by {
        if has_key(cats, key) {
            let (a, b) = choose|a: int, b: int| at(cats, a, b) && norm_path_spec(#[trigger] cats[a].items[b].path) == key;
            if a == k {
                assert(norm_path_spec(cats[k].items[b].path) == key);
            } else {
                assert(at(e, a, b) && e[a].items[b] == cats[a].items[b]);
            }
        }
        if has_norm(cats[k].items, key) {
            let j = choose|j: int| 0 <= j < cats[k].items.len() && norm_path_spec(#[trigger] cats[k].items[j].path) == key;
            assert(at(cats, k, j));
        }
        if has_key(e, key) {
            let (a, b) = choose|a: int, b: int| at(e, a, b) && norm_path_spec(#[trigger] e[a].items[b].path) == key;
            assert(a != k);
            assert(at(cats, a, b) && e[a].items[b] == cats[a].items[b]);
        }
    }
}

/// Whether some item of any category has this normalized path.
fn config_has_key(cats: &Vec<Category>, key: &String) -> (r: bool)
    ensures
        r == has_key(category_views(cats@), key@),
{
    let ghost cv = category_views(cats@);
    let mut c: usize = 0;
    while c < cats.len()
        invariant
            c <= cats.len(),
            cv == category_views(cats@),
            forall|a: int, b: int| 0 <= a < c && at(cv, a, b) ==> norm_path_spec(#[trigger] cv[a].items[b].path) != key@,
        decreases cats.len() - c,
    {
        assert(cats@[c as int]@ == cv[c as int]);
        if has_norm_exec(&cats[c].items, key) {
            proof {
                let j = choose|j: int| 0 <= j < cv[c as int].items.len() && norm_path_spec(#[trigger] cv[c as int].items[j].path) == key@;
                assert(at(cv, c as int, j));
            }
            return true;
        }
        c += 1;
    }
    false
}

/// Whether some item has this normalized path.
fn has_norm_exec(items: &Vec<Item>, key: &String) -> (r: bool)
    ensures
        r == has_norm(item_views(items@), key@),
{
    let ghost v = item_views(items@);
    let mut m: usize = 0;
    while m < items.len()
        invariant
            m <= items.len(),
            v == item_views(items@),
            forall|q: int| 0 <= q < m ==> norm_path_spec(#[trigger] v[q].path) != key@,
        decreases items.len() - m,
    {
        assert(items@[m as int]@ == v[m as int]);
        if norm_path(items[m].path.as_str()) == *key {
            assert(norm_path_spec(v[m as int].path) == key@);
            return true;
        }
        m += 1;
    }
    false
}

/// First category holding an item with this id.
fn find_holding(cats: &Vec<Category>, id: &String) -> (r: Option<usize>)
    ensures
        match r {
            Some(f) => f < cats.len() && holding_category(category_views(cats@), id@) == Some(f as int),
            None => holding_category(category_views(cats@), id@) is None,
        },
{
    let ghost cv = category_views(cats@);
    let mut from: usize = 0;
    while from < cats.len()
        invariant
            from <= cats.len(),
            cv == category_views(cats@),
            holding_category(cv.take(from as int), id@) is None,
        decreases cats.len() - from,
    {
        assert(item_views(cats@[from as int].items@) == cv[from as int].items);
        let found = locate_item(&cats[from].items, id);
        proof {
            let t = cv.take(from + 1);
            assert(t.drop_last() =~= cv.take(from as int));
            assert(t.last() == cv[from as int]);
            lemma_first_item_facts(cv[from as int].items, id@);
            if let Some(j) = found {
                assert(cv[from as int].items[j as int].id == id@);
                assert(has_item_id(cv[from as int], id@));
            } else {
                if has_item_id(cv[from as int], id@) {
                    let q = choose|q: int| 0 <= q < cv[from as int].items.len() && #[trigger] cv[from as int].items[q].id == id@;
                    assert(cv[from as int].items[q].id != id@);
                }
            }
        }
        if found.is_some() {
            proof {
                lemma_holding_prefix(cv, id@, from + 1);
            }
            return Some(from);
        }
        from += 1;
    }
    assert(cv.take(from as int) =~= cv);
    None
}

// ---------------------------------------------------------------------------
// Hiding the desktop icons
//
// The icons are a system-wide setting. `desktop_icons_owned_by_us` records
// that this program hid them; it is written before the icons are touched, so a
// process killed while they are hidden knows on its next start that it owes a
// restore. When the icons already look as asked, nothing is claimed.

/// What to do after a request to hide (`true`) or show the desktop icons.
#[derive(Debug, Clone, Copy, PartialEq, Eq, Structural)]
pub enum IconPlan {
    /// The icons already look as asked: store `settings` (only the request
    /// changes; ownership is not claimed).
    Record(Settings),
    /// Store `claim`, then hide the icons; if the shell refuses, store
    /// `rollback` and report the error.
    Hide { claim: Settings, rollback: Settings },
    /// Show the icons; once that worked, store `release`.
    Show { release: Settings },
}

pub open spec fn icon_plan_spec(s: Settings, visible: bool, hidden: bool) -> IconPlan {
    if !visible == hidden {
        IconPlan::Record(Settings { hide_desktop_icons: hidden, ..s })
    } else if hidden {
        let claim = Settings {
            desktop_icons_owned_by_us: true,
            desktop_icons_were_visible: visible,
            hide_desktop_icons: true,
            ..s
        };
        IconPlan::Hide {
            claim,
            rollback: Settings { desktop_icons_owned_by_us: false, hide_desktop_icons: false, ..claim },
        }
    } else {
        IconPlan::Show {
            release: Settings {
                desktop_icons_owned_by_us: false,
                desktop_icons_were_visible: true,
                hide_desktop_icons: false,
                ..s
            },
        }
    }
}

/// Decides how to honour a request to hide or show the desktop icons, given
/// whether they are visible now.
pub fn plan_icon_request(s: Settings, visible: bool, hidden: bool) -> (p: IconPlan)
    ensures
        p == icon_plan_spec(s, visible, hidden),
{
    if !visible == hidden {
        IconPlan::Record(Settings { hide_desktop_icons: hidden, ..s })
    } else if hidden {
        let claim = Settings {
            desktop_icons_owned_by_us: true,
            desktop_icons_were_visible: visible,
            hide_desktop_icons: true,
            ..s
        };
        IconPlan::Hide {
            claim,
            rollback: Settings { desktop_icons_owned_by_us: false, hide_desktop_icons: false, ..claim },
        }
    } else {
        IconPlan::Show {
            release: Settings {
                desktop_icons_owned_by_us: false,
                desktop_icons_were_visible: true,
                hide_desktop_icons: false,
                ..s
            },
        }
    }
}

/// What to do when the front end starts, to undo drift in the icon state.
#[derive(Debug, Clone, Copy, PartialEq, Eq, Structural)]
pub enum ReconcilePlan {
    /// The state could not be read, or nothing drifted.
    Nothing,
    /// A previous run hid the icons and did not restore them: show them again
    /// if `show` (a failure is only logged), then store `settings`.
    Restore { show: bool, settings: Settings },
    /// The user wants them hidden but they are visible (Explorer restarted):
    /// hide them again and, if that worked, store `on_success`.
    Reapply { on_success: Settings },
}

pub open spec fn reconcile_spec(s: Settings, visible: Option<bool>) -> ReconcilePlan {
    match visible {
        None => ReconcilePlan::Nothing,
        Some(v) => if s.desktop_icons_owned_by_us {
            ReconcilePlan::Restore {
                show: s.desktop_icons_were_visible && !v,
                settings: Settings {
                    desktop_icons_owned_by_us: false,
                    desktop_icons_were_visible: true,
                    ..s
                },
            }
        } else if s.hide_desktop_icons && v {
            ReconcilePlan::Reapply {
                on_success: Settings {
                    desktop_icons_owned_by_us: true,
                    desktop_icons_were_visible: true,
                    ..s
                },
            }
        } else {
            ReconcilePlan::Nothing
        },
    }
}

/// Decides how to reconcile the stored icon state with what the desktop shows
/// (`None`: it could not be read, and then nothing is guessed).
pub fn plan_reconcile(s: Settings, visible: Option<bool>) -> (p: ReconcilePlan)
    ensures
        p == reconcile_spec(s, visible),
{
    match visible {
        None => ReconcilePlan::Nothing,
        Some(v) => if s.desktop_icons_owned_by_us {
            ReconcilePlan::Restore {
                show: s.desktop_icons_were_visible && !v,
                settings: Settings {
                    desktop_icons_owned_by_us: false,
                    desktop_icons_were_visible: true,
                    ..s
                },
            }
        } else if s.hide_desktop_icons && v {
            ReconcilePlan::Reapply {
                on_success: Settings {
                    desktop_icons_owned_by_us: true,
                    desktop_icons_were_visible: true,
                    ..s
                },
            }
        } else {
            ReconcilePlan::Nothing
        },
    }
}

pub open spec fn restore_spec(s: Settings) -> Option<(bool, Settings)> {
    if !s.desktop_icons_owned_by_us {
        None
    } else {
        Some(
            (
                s.desktop_icons_were_visible,
                Settings { desktop_icons_owned_by_us: false, desktop_icons_were_visible: true, ..s },
            ),
        )
    }
}

/// On exit: `None` when this program never hid the icons (then nothing at all
/// is touched); otherwise whether to show them and the settings to store.
pub fn plan_restore(s: Settings) -> (p: Option<(bool, Settings)>)
    ensures
        p == restore_spec(s),
{
    if !s.desktop_icons_owned_by_us {
        None
    } else {
        Some(
            (
                s.desktop_icons_were_visible,
                Settings { desktop_icons_owned_by_us: false, desktop_icons_were_visible: true, ..s },
            ),
        )
    }
}

// ---------------------------------------------------------------------------
// Waking the hidden dock

/// One poll of the edge detector: whether to wake the dock, and whether it is
/// armed afterwards.
pub open spec fn edge_spec(armed: bool, dock_hidden: bool, at_edge: bool) -> (bool, bool) {
    let wake = dock_hidden && at_edge && armed;
    (wake, !dock_hidden || !at_edge || (armed && !wake))
}

/// Edge detector for the cursor touching the bottom of the screen while the
/// dock is hidden: it fires once per touch, not for as long as the cursor stays.
#[derive(Debug, Clone, Copy, PartialEq, Eq, Structural)]
pub struct EdgeWatch {
    pub armed: bool,
}

impl EdgeWatch {
    pub fn new() -> (w: Self)
        ensures
            w.armed,
    {
        EdgeWatch { armed: true }
    }

    /// One poll: whether to wake the dock now.
    pub fn step(&mut self, dock_hidden: bool, at_edge: bool) -> (wake: bool)
        ensures
            (wake, final(self).armed) == edge_spec(old(self).armed, dock_hidden, at_edge),
    {
        if !dock_hidden {
            // Not watched while expanded; re-arm so a stale touch is not carried over.
            self.armed = true;
            false
        } else if at_edge && self.armed {
            self.armed = false;
            true
        } else {
            if !at_edge {
                self.armed = true;
            }
            false
        }
    }
}

/// The cursor row `y` is within two pixels of the bottom of a screen `height` pixels tall.
pub fn at_bottom_edge(y: i32, height: i32) -> (r: bool)
    ensures
        r == (y >= height - 2),
{
    (y as i64) >= (height as i64) - 2
}

/// The wake-up fires on the edge, not the level: while the cursor stays at
/// the bottom of the screen it wakes the dock at most once, and after it
/// fired it fires again only once the cursor has left the edge (or the dock
/// has been shown) in between.
pub proof fn lemma_edge_fires_once(armed: bool, at_edge2: bool)
    ensures
        edge_spec(armed, true, true).0 ==> !edge_spec(edge_spec(armed, true, true).1, true, true).0,
        edge_spec(edge_spec(armed, true, false).1, true, true).0,
        edge_spec(edge_spec(armed, false, at_edge2).1, true, true).0,
{
}

/// A request that finds the icons already as asked claims nothing: the
/// ownership marks stay as they were, and only the wish is stored.
pub proof fn lemma_icon_request_no_claim(s: Settings, visible: bool, hidden: bool)
    requires
        !visible == hidden,
    ensures
        icon_plan_spec(s, visible, hidden) == IconPlan::Record(Settings { hide_desktop_icons: hidden, ..s }),
{
}

/// Hiding is recorded before the icons are touched, so a run killed while
/// they are hidden recovers: the next reconcile (or the next exit) sees the
/// claim, shows the icons again and gives the ownership back.
pub proof fn lemma_icon_crash_recovery(s: Settings)
    ensures
        icon_plan_spec(s, true, true) matches IconPlan::Hide { claim, .. } && {
            &&& reconcile_spec(claim, Some(false)) == (ReconcilePlan::Restore {
                show: true,
                settings: Settings { desktop_icons_owned_by_us: false, desktop_icons_were_visible: true, ..claim },
            })
            &&& restore_spec(claim) == Some((true, Settings { desktop_icons_owned_by_us: false, desktop_icons_were_visible: true, ..claim }))
        },
{
}

/// Restoring on exit is idempotent: once restored, a second restore touches nothing.
pub proof fn lemma_restore_idempotent(s: Settings)
    ensures
        restore_spec(s) matches Some((_, t)) ==> restore_spec(t) is None,
        reconcile_spec(s, Some(true)) matches ReconcilePlan::Restore { settings, .. } ==> restore_spec(settings) is None,
        reconcile_spec(s, Some(false)) matches ReconcilePlan::Restore { settings, .. } ==> restore_spec(settings) is None,
{
}

// ---------------------------------------------------------------------------
// Loading

/// Brings a freshly parsed configuration up to date: an older layout version
/// is raised to `SCHEMA_VERSION`, then the structure is normalized. Returns
/// whether the file was older, in which case a snapshot is due before the next write.
pub fn migrate(cfg: &mut AppConfig) -> (older: bool)
    ensures
        older == (old(cfg)@.schema_version < crate::config::SCHEMA_VERSION),
        final(cfg)@ == crate::normalize::normalized(
            ConfigView {
                schema_version: if older {
                    crate::config::SCHEMA_VERSION
                } else {
                    old(cfg)@.schema_version
                },
                ..old(cfg)@
            },
        ),
{
    let older = cfg.schema_version < crate::config::SCHEMA_VERSION;
    if older {
        cfg.schema_version = crate::config::SCHEMA_VERSION;
    }
    cfg.normalize();
    older
}

} // verus!
